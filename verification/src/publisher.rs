//! Messages for the broker: their routing keys, their identities and their documents.

use crate::clock;
use crate::clock::rfc3339_text;
use crate::json;
use crate::json::{
    new_object, parse_value, put_json, put_object, put_text, put_whole, text_of_object,
    text_of_value, Json, JsonView,
};
use crate::packing;
use crate::packing::gzip;
use crate::text;
use crate::text::{to_lowercase, to_uppercase};
use vstd::prelude::*;
use vstd::string::StringExecFns;

verus! {

/// The version of the layout of every message.
pub const INDICATOR_OUTBOX_SCHEMA_VERSION: i32 = 1;

/// The namespace of the identities of messages.
pub const INDICATOR_MESSAGE_NAMESPACE: u128 = 0x8d9b_9f64_0eea_4f7b_9f35_4385_31a7_a651;

/// A message that waits to be sent.
#[derive(Clone, Debug, PartialEq, Eq)]
pub struct OutboxMessage {
    pub exchange_name: String,
    pub routing_key: String,
    pub message_id: u128,
    pub schema_version: i32,
    pub headers_json: String,
    pub payload_json: String,
}

/// A bundle of one minute that waits to be sent, with its document packed.
#[derive(Clone, Debug, PartialEq, Eq)]
pub struct BundleOutboxMessage {
    pub exchange_name: String,
    pub routing_key: String,
    pub message_id: u128,
    pub schema_version: i32,
    pub headers_json: String,
    pub symbol: String,
    pub ts_bucket: i64,
    pub indicator_count: i32,
    pub payload_encoding: String,
    pub payload_bytes: Vec<u8>,
    pub payload_json: String,
}

/// What one indicator gave for one minute.
#[derive(Clone, Debug, PartialEq, Eq)]
pub struct IndicatorSnapshotRow {
    pub indicator_code: String,
    pub window_code: String,
    pub payload_json: String,
}

/// Why a message could not be made.
#[derive(Clone, Copy, Debug, PartialEq, Eq)]
pub enum PublishError {
    /// The minute has no calendar date.
    NoDate,
    /// The payload is no JSON.
    NoJson,
    /// The document could not be packed.
    NotPacked,
}

/// The document of a bundle with its routing key and identities.
#[derive(Clone, Debug, PartialEq, Eq)]
pub struct BundlePayload {
    pub routing_key: String,
    pub message_id: u128,
    pub trace_id: u128,
    pub payload_json: String,
}

/// The hexadecimal digit of a number below sixteen.
pub open spec fn hex_digit(n: nat) -> char {
    if n < 10 {
        text::digit(n)
    } else if n == 10 {
        'a'
    } else if n == 11 {
        'b'
    } else if n == 12 {
        'c'
    } else if n == 13 {
        'd'
    } else if n == 14 {
        'e'
    } else {
        'f'
    }
}

/// The last `width` hexadecimal digits of a number.
pub open spec fn hex_digits(n: nat, width: nat) -> Seq<char>
    decreases width,
{
    if width == 0 {
        Seq::empty()
    } else {
        hex_digits(n / 16, (width - 1) as nat).push(hex_digit(n % 16))
    }
}

/// An identity as text: its digits in groups of eight, four, four, four and twelve.
pub open spec fn hyphenated(id: u128) -> Seq<char> {
    let h = hex_digits(id as nat, 32);
    h.subrange(0, 8) + "-"@ + h.subrange(8, 12) + "-"@ + h.subrange(12, 16) + "-"@ + h.subrange(
        16,
        20,
    ) + "-"@ + h.subrange(20, 32)
}

/// The version 5 UUID of a name in a namespace.
pub uninterp spec fn uuid_v5(namespace: u128, name: Seq<char>) -> u128;

/// `uuid::Uuid::new_v5` on the bytes of a name.
#[verifier::external_body]
fn named_uuid(namespace: u128, name: &str) -> (out: u128)
    ensures
        out == uuid_v5(namespace, name@),
{
    uuid::Uuid::new_v5(&uuid::Uuid::from_u128(namespace), name.as_bytes()).as_u128()
}

/// `uuid::Uuid` as it is displayed: lower case, with hyphens.
#[verifier::external_body]
fn uuid_text(id: u128) -> (out: String)
    ensures
        out@ == hyphenated(id),
{
    uuid::Uuid::from_u128(id).to_string()
}

/// The identity of a message in a scope: the same for the same text, always.
pub open spec fn stable_id(scope: Seq<char>, identity: Seq<char>) -> u128 {
    uuid_v5(INDICATOR_MESSAGE_NAMESPACE, scope + "|"@ + identity)
}

/// The identity of a message in a scope.
pub fn stable_uuid(scope: &str, identity: &str) -> (out: u128)
    ensures
        out == stable_id(scope@, identity@),
{
    let mut name: String = scope.to_owned();
    name.append("|");
    name.append(identity);
    named_uuid(INDICATOR_MESSAGE_NAMESPACE, &name)
}

/// The headers of every message of a producer.
pub open spec fn header_members(instance_id: Seq<char>) -> Map<Seq<char>, JsonView> {
    json::no_members().insert(
        "schema_version"@,
        JsonView::Number(text::digits(1)),
    ).insert("producer_service"@, JsonView::Text("indicator_engine"@)).insert(
        "producer_instance_id"@,
        JsonView::Text(instance_id),
    )
}

/// The part of a document that names its producer.
pub open spec fn producer_members(instance_id: Seq<char>) -> Map<Seq<char>, JsonView> {
    json::no_members().insert("service"@, JsonView::Text("indicator_engine"@)).insert(
        "instance_id"@,
        JsonView::Text(instance_id),
    )
}

/// What the identity of a snapshot message rests on.
pub open spec fn snapshot_identity(
    symbol: Seq<char>,
    date: Seq<char>,
    indicator_code: Seq<char>,
    window_code: Seq<char>,
    payload: JsonView,
) -> Seq<char> {
    "ind.snapshot|"@ + text::uppercase(symbol) + "|"@ + date + "|"@ + indicator_code + "|"@
        + window_code + "|"@ + json::value_text(payload)
}

/// The routing key of a snapshot message.
pub open spec fn snapshot_routing_key(indicator_code: Seq<char>, symbol: Seq<char>) -> Seq<char> {
    "evt."@ + indicator_code + "."@ + text::lowercase(symbol)
}

/// The document of a snapshot message.
pub open spec fn snapshot_document(
    instance_id: Seq<char>,
    symbol: Seq<char>,
    date: Seq<char>,
    indicator_code: Seq<char>,
    window_code: Seq<char>,
    payload: JsonView,
    published_at: Seq<char>,
) -> Map<Seq<char>, JsonView> {
    let identity = snapshot_identity(symbol, date, indicator_code, window_code, payload);
    json::no_members().insert(
        "schema_version"@,
        JsonView::Number(text::digits(1)),
    ).insert("msg_type"@, JsonView::Text("ind.snapshot"@)).insert(
        "message_id"@,
        JsonView::Text(hyphenated(stable_id("message"@, identity))),
    ).insert("trace_id"@, JsonView::Text(hyphenated(stable_id("trace"@, identity)))).insert(
        "routing_key"@,
        JsonView::Text(snapshot_routing_key(indicator_code, symbol)),
    ).insert("indicator_code"@, JsonView::Text(indicator_code)).insert(
        "window_code"@,
        JsonView::Text(window_code),
    ).insert("symbol"@, JsonView::Text(symbol)).insert("event_ts"@, JsonView::Text(date)).insert(
        "published_at"@,
        JsonView::Text(published_at),
    ).insert(
        "producer"@,
        JsonView::Object(json::object_text(producer_members(instance_id))),
    ).insert("data"@, payload)
}

/// What the identity of a bundle rests on.
pub open spec fn bundle_identity(
    symbol: Seq<char>,
    date: Seq<char>,
    indicators: JsonView,
) -> Seq<char> {
    "ind.minute_bundle|"@ + text::uppercase(symbol) + "|"@ + date + "|"@ + json::value_text(
        indicators,
    )
}

/// The routing key of a bundle.
pub open spec fn bundle_routing_key(symbol: Seq<char>) -> Seq<char> {
    "bundle.1m."@ + text::lowercase(symbol)
}

/// The document of a bundle.
pub open spec fn bundle_document(
    instance_id: Seq<char>,
    symbol: Seq<char>,
    date: Seq<char>,
    indicators: JsonView,
    indicator_count: usize,
    published_at: Seq<char>,
) -> Map<Seq<char>, JsonView> {
    let identity = bundle_identity(symbol, date, indicators);
    json::no_members().insert("indicators"@, indicators).insert(
        "schema_version"@,
        JsonView::Number(text::digits(1)),
    ).insert("msg_type"@, JsonView::Text("ind.minute_bundle"@)).insert(
        "message_id"@,
        JsonView::Text(hyphenated(stable_id("message"@, identity))),
    ).insert("trace_id"@, JsonView::Text(hyphenated(stable_id("trace"@, identity)))).insert(
        "routing_key"@,
        JsonView::Text(bundle_routing_key(symbol)),
    ).insert("symbol"@, JsonView::Text(symbol)).insert("ts_bucket"@, JsonView::Text(date)).insert(
        "window_code"@,
        JsonView::Text("1m"@),
    ).insert(
        "indicator_count"@,
        JsonView::Number(text::digits(indicator_count as nat)),
    ).insert("published_at"@, JsonView::Text(published_at)).insert(
        "producer"@,
        JsonView::Object(json::object_text(producer_members(instance_id))),
    )
}

/// The document that stands for a bundle whose own document is packed.
pub open spec fn bundle_stub(
    symbol: Seq<char>,
    date: Seq<char>,
    indicator_count: usize,
) -> Map<Seq<char>, JsonView> {
    json::no_members().insert("symbol"@, JsonView::Text(symbol)).insert(
        "ts_bucket"@,
        JsonView::Text(date),
    ).insert("window_code"@, JsonView::Text("1m"@)).insert(
        "indicator_count"@,
        JsonView::Number(text::digits(indicator_count as nat)),
    ).insert("msg_type"@, JsonView::Text("ind.minute_bundle"@))
}

/// Makes messages.
#[derive(Clone)]
pub struct IndPublisher {
    exchange_name: String,
    producer_instance_id: String,
}

impl IndPublisher {
    /// The exchange that messages go to.
    pub closed spec fn exchange(&self) -> Seq<char> {
        self.exchange_name@
    }

    /// The instance that makes the messages.
    pub closed spec fn instance(&self) -> Seq<char> {
        self.producer_instance_id@
    }

    /// Makes messages for an exchange, from an instance.
    pub fn new(exchange_name: String, producer_instance_id: String) -> (out: Self)
        ensures
            out.exchange() == exchange_name@,
            out.instance() == producer_instance_id@,
    {
        Self { exchange_name, producer_instance_id }
    }

    /// Whether `m` is the message of a snapshot.
    pub open spec fn is_snapshot_message(
        &self,
        m: OutboxMessage,
        date: Seq<char>,
        symbol: Seq<char>,
        indicator_code: Seq<char>,
        window_code: Seq<char>,
        payload: JsonView,
        published_at: Seq<char>,
    ) -> bool {
        &&& m.exchange_name@ == self.exchange()
        &&& m.routing_key@ == snapshot_routing_key(indicator_code, symbol)
        &&& m.message_id == stable_id(
            "message"@,
            snapshot_identity(symbol, date, indicator_code, window_code, payload),
        )
        &&& m.schema_version == INDICATOR_OUTBOX_SCHEMA_VERSION
        &&& json::is_text_of(m.headers_json@, header_members(self.instance()))
        &&& m.payload_json@ == json::object_text(
            snapshot_document(
                self.instance(),
                symbol,
                date,
                indicator_code,
                window_code,
                payload,
                published_at,
            ),
        )
    }

    /// The message of what one indicator gave for one minute, published at the given
    /// time.
    pub fn build_snapshot_message(
        &self,
        ts_bucket: i64,
        symbol: &str,
        snapshot: &IndicatorSnapshotRow,
        published_at: &str,
    ) -> (out: Result<OutboxMessage, PublishError>)
        ensures
            clock::rfc3339(ts_bucket) is None <==> out == Err::<OutboxMessage, PublishError>(
                PublishError::NoDate,
            ),
            clock::has_four_digit_year(ts_bucket) ==> clock::rfc3339(ts_bucket) is Some,
            clock::rfc3339(ts_bucket) is Some && json::json_value(snapshot.payload_json@) is None
                <==> out == Err::<OutboxMessage, PublishError>(PublishError::NoJson),
            out matches Ok(m) ==> self.is_snapshot_message(
                m,
                clock::rfc3339(ts_bucket)->0,
                symbol@,
                snapshot.indicator_code@,
                snapshot.window_code@,
                json::json_value(snapshot.payload_json@)->0,
                published_at@,
            ),
            out is Err ==> out->Err_0 != PublishError::NotPacked,
    {
        self.build_snapshot_message_from_parts(
            ts_bucket,
            symbol,
            &snapshot.indicator_code,
            &snapshot.window_code,
            &snapshot.payload_json,
            published_at,
        )
    }

    /// The message of what one indicator gave for one minute.
    pub fn build_snapshot_message_from_parts(
        &self,
        ts_bucket: i64,
        symbol: &str,
        indicator_code: &str,
        window_code: &str,
        payload_json: &str,
        published_at: &str,
    ) -> (out: Result<OutboxMessage, PublishError>)
        ensures
            clock::rfc3339(ts_bucket) is None <==> out == Err::<OutboxMessage, PublishError>(
                PublishError::NoDate,
            ),
            clock::has_four_digit_year(ts_bucket) ==> clock::rfc3339(ts_bucket) is Some,
            clock::rfc3339(ts_bucket) is Some && json::json_value(payload_json@) is None <==> out
                == Err::<OutboxMessage, PublishError>(PublishError::NoJson),
            out matches Ok(m) ==> self.is_snapshot_message(
                m,
                clock::rfc3339(ts_bucket)->0,
                symbol@,
                indicator_code@,
                window_code@,
                json::json_value(payload_json@)->0,
                published_at@,
            ),
            out is Err ==> out->Err_0 != PublishError::NotPacked,
    {
        let date: String = match rfc3339_text(ts_bucket) {
            Some(date) => date,
            None => {
                return Err(PublishError::NoDate);
            },
        };
        let payload: Json = match parse_value(payload_json) {
            Some(payload) => payload,
            None => {
                return Err(PublishError::NoJson);
            },
        };
        let mut routing_key: String = "evt.".to_owned();
        routing_key.append(indicator_code);
        routing_key.append(".");
        routing_key.append(&to_lowercase(symbol));
        let mut identity: String = "ind.snapshot|".to_owned();
        identity.append(&to_uppercase(symbol));
        identity.append("|");
        identity.append(&date);
        identity.append("|");
        identity.append(indicator_code);
        identity.append("|");
        identity.append(window_code);
        identity.append("|");
        identity.append(&text_of_value(&payload));
        let message_id: u128 = stable_uuid("message", &identity);
        let trace_id: u128 = stable_uuid("trace", &identity);

        let mut document = new_object();
        put_whole(&mut document, "schema_version", 1);
        put_text(&mut document, "msg_type", "ind.snapshot");
        put_text(&mut document, "message_id", &uuid_text(message_id));
        put_text(&mut document, "trace_id", &uuid_text(trace_id));
        put_text(&mut document, "routing_key", &routing_key);
        put_text(&mut document, "indicator_code", indicator_code);
        put_text(&mut document, "window_code", window_code);
        put_text(&mut document, "symbol", symbol);
        put_text(&mut document, "event_ts", &date);
        put_text(&mut document, "published_at", published_at);
        let producer = self.producer();
        put_object(&mut document, "producer", producer);
        put_json(&mut document, "data", payload_json);
        Ok(
            OutboxMessage {
                exchange_name: self.exchange_name.clone(),
                routing_key,
                message_id,
                schema_version: INDICATOR_OUTBOX_SCHEMA_VERSION,
                headers_json: self.build_headers_json(),
                payload_json: text_of_object(&document),
            },
        )
    }

    /// Whether `p` is the document of a bundle with its routing key and identities.
    pub open spec fn is_bundle_payload(
        &self,
        p: BundlePayload,
        date: Seq<char>,
        symbol: Seq<char>,
        indicators: JsonView,
        indicator_count: usize,
        published_at: Seq<char>,
    ) -> bool {
        let identity = bundle_identity(symbol, date, indicators);
        &&& p.routing_key@ == bundle_routing_key(symbol)
        &&& p.message_id == stable_id("message"@, identity)
        &&& p.trace_id == stable_id("trace"@, identity)
        &&& p.payload_json@ == json::object_text(
            bundle_document(
                self.instance(),
                symbol,
                date,
                indicators,
                indicator_count,
                published_at,
            ),
        )
    }

    /// The message of a bundle of one minute.
    pub fn build_minute_bundle_message(
        &self,
        ts_bucket: i64,
        symbol: &str,
        indicators_json: &str,
        indicator_count: usize,
        published_at: &str,
    ) -> (out: Result<OutboxMessage, PublishError>)
        ensures
            clock::rfc3339(ts_bucket) is None <==> out == Err::<OutboxMessage, PublishError>(
                PublishError::NoDate,
            ),
            clock::has_four_digit_year(ts_bucket) ==> clock::rfc3339(ts_bucket) is Some,
            clock::rfc3339(ts_bucket) is Some && json::json_value(indicators_json@) is None <==> out
                == Err::<OutboxMessage, PublishError>(PublishError::NoJson),
            out is Err ==> out->Err_0 != PublishError::NotPacked,
            out matches Ok(m) ==> {
                let date = clock::rfc3339(ts_bucket)->0;
                let indicators = json::json_value(indicators_json@)->0;
                &&& m.exchange_name@ == self.exchange()
                &&& m.routing_key@ == bundle_routing_key(symbol@)
                &&& m.message_id == stable_id(
                    "message"@,
                    bundle_identity(symbol@, date, indicators),
                )
                &&& m.schema_version == INDICATOR_OUTBOX_SCHEMA_VERSION
                &&& json::is_text_of(m.headers_json@, header_members(self.instance()))
                &&& m.payload_json@ == json::object_text(
                    bundle_document(
                        self.instance(),
                        symbol@,
                        date,
                        indicators,
                        indicator_count,
                        published_at@,
                    ),
                )
            },
    {
        match self.build_minute_bundle_payload(
            ts_bucket,
            symbol,
            indicators_json,
            indicator_count,
            published_at,
        ) {
            Err(e) => Err(e),
            Ok(p) => Ok(
                OutboxMessage {
                    exchange_name: self.exchange_name.clone(),
                    routing_key: p.routing_key,
                    message_id: p.message_id,
                    schema_version: INDICATOR_OUTBOX_SCHEMA_VERSION,
                    headers_json: self.build_headers_json(),
                    payload_json: p.payload_json,
                },
            ),
        }
    }

    /// Whether `m` is the message of a bundle with its document packed.
    pub open spec fn is_bundle_message(
        &self,
        m: BundleOutboxMessage,
        ts_bucket: i64,
        symbol: Seq<char>,
        indicators: JsonView,
        indicator_count: usize,
    ) -> bool {
        let date = clock::rfc3339(ts_bucket)->0;
        &&& m.exchange_name@ == self.exchange()
        &&& m.routing_key@ == bundle_routing_key(symbol)
        &&& m.message_id == stable_id("message"@, bundle_identity(symbol, date, indicators))
        &&& m.schema_version == INDICATOR_OUTBOX_SCHEMA_VERSION
        &&& json::is_text_of(m.headers_json@, header_members(self.instance()))
        &&& m.symbol@ == text::uppercase(symbol)
        &&& m.ts_bucket == ts_bucket
        &&& m.indicator_count == indicator_count as i32
        &&& m.payload_encoding@ == "gzip"@
        &&& json::is_text_of(m.payload_json@, bundle_stub(symbol, date, indicator_count))
        &&& clock::has_four_digit_year(ts_bucket) ==> clock::rfc3339_instant(date) == Some(
            ts_bucket,
        )
    }

    /// The bytes of the document of a bundle.
    pub open spec fn bundle_bytes(
        &self,
        ts_bucket: i64,
        symbol: Seq<char>,
        indicators: JsonView,
        indicator_count: usize,
        published_at: Seq<char>,
    ) -> Seq<u8> {
        vstd::utf8::encode_utf8(
            json::object_text(
                bundle_document(
                    self.instance(),
                    symbol,
                    clock::rfc3339(ts_bucket)->0,
                    indicators,
                    indicator_count,
                    published_at,
                ),
            ),
        )
    }

    /// The message of a bundle of one minute, its document packed.
    pub fn build_minute_bundle_outbox_message(
        &self,
        ts_bucket: i64,
        symbol: &str,
        indicators_json: &str,
        indicator_count: usize,
        published_at: &str,
    ) -> (out: Result<BundleOutboxMessage, PublishError>)
        ensures
            clock::rfc3339(ts_bucket) is None <==> out == Err::<BundleOutboxMessage, PublishError>(
                PublishError::NoDate,
            ),
            clock::has_four_digit_year(ts_bucket) ==> clock::rfc3339(ts_bucket) is Some,
            clock::rfc3339(ts_bucket) is Some && json::json_value(indicators_json@) is None <==> out
                == Err::<BundleOutboxMessage, PublishError>(PublishError::NoJson),
            clock::rfc3339(ts_bucket) is Some && json::json_value(indicators_json@) is Some ==> {
                let raw = self.bundle_bytes(
                    ts_bucket,
                    symbol@,
                    json::json_value(indicators_json@)->0,
                    indicator_count,
                    published_at@,
                );
                match packing::packed_form(raw) {
                    None => out == Err::<BundleOutboxMessage, PublishError>(
                        PublishError::NotPacked,
                    ),
                    Some(packed) => {
                        &&& out matches Ok(m)
                        &&& self.is_bundle_message(
                            m,
                            ts_bucket,
                            symbol@,
                            json::json_value(indicators_json@)->0,
                            indicator_count,
                        )
                        &&& m.payload_bytes@ == packed
                        &&& packing::unpacked(m.payload_bytes@) == Some(raw)
                    },
                }
            },
    {
        let payload: BundlePayload = match self.build_minute_bundle_payload(
            ts_bucket,
            symbol,
            indicators_json,
            indicator_count,
            published_at,
        ) {
            Err(e) => {
                return Err(e);
            },
            Ok(payload) => payload,
        };
        let packed: Option<Vec<u8>> = gzip_json_bytes(&payload.payload_json);
        let date: String = match rfc3339_text(ts_bucket) {
            Some(date) => date,
            None => {
                return Err(PublishError::NoDate);
            },
        };
        self.bundle_outbox_message(payload, ts_bucket, symbol, &date, indicator_count, packed)
    }

    /// The message of a bundle once packing its document was tried.
    pub fn bundle_outbox_message(
        &self,
        payload: BundlePayload,
        ts_bucket: i64,
        symbol: &str,
        date: &str,
        indicator_count: usize,
        packed: Option<Vec<u8>>,
    ) -> (out: Result<BundleOutboxMessage, PublishError>)
        ensures
            packed is None ==> out == Err::<BundleOutboxMessage, PublishError>(
                PublishError::NotPacked,
            ),
            packed matches Some(bytes) ==> {
                &&& out matches Ok(m)
                &&& m.exchange_name@ == self.exchange()
                &&& m.routing_key@ == payload.routing_key@
                &&& m.message_id == payload.message_id
                &&& m.schema_version == INDICATOR_OUTBOX_SCHEMA_VERSION
                &&& json::is_text_of(m.headers_json@, header_members(self.instance()))
                &&& m.symbol@ == text::uppercase(symbol@)
                &&& m.ts_bucket == ts_bucket
                &&& m.indicator_count == indicator_count as i32
                &&& m.payload_encoding@ == "gzip"@
                &&& m.payload_bytes@ == bytes@
                &&& json::is_text_of(
                    m.payload_json@,
                    bundle_stub(symbol@, date@, indicator_count),
                )
            },
    {
        let bytes: Vec<u8> = match packed {
            Some(bytes) => bytes,
            None => {
                return Err(PublishError::NotPacked);
            },
        };
        let mut stub = new_object();
        put_text(&mut stub, "symbol", symbol);
        put_text(&mut stub, "ts_bucket", date);
        put_text(&mut stub, "window_code", "1m");
        put_whole(&mut stub, "indicator_count", indicator_count as u64);
        put_text(&mut stub, "msg_type", "ind.minute_bundle");
        Ok(
            BundleOutboxMessage {
                exchange_name: self.exchange_name.clone(),
                routing_key: payload.routing_key,
                message_id: payload.message_id,
                schema_version: INDICATOR_OUTBOX_SCHEMA_VERSION,
                headers_json: self.build_headers_json(),
                symbol: to_uppercase(symbol),
                ts_bucket,
                indicator_count: #[verifier::truncate]
                (indicator_count as i32),
                payload_encoding: "gzip".to_owned(),
                payload_bytes: bytes,
                payload_json: text_of_object(&stub),
            },
        )
    }

    /// The document of a bundle of one minute with its routing key and identities.
    pub fn build_minute_bundle_payload(
        &self,
        ts_bucket: i64,
        symbol: &str,
        indicators_json: &str,
        indicator_count: usize,
        published_at: &str,
    ) -> (out: Result<BundlePayload, PublishError>)
        ensures
            clock::rfc3339(ts_bucket) is None <==> out == Err::<BundlePayload, PublishError>(
                PublishError::NoDate,
            ),
            clock::has_four_digit_year(ts_bucket) ==> clock::rfc3339(ts_bucket) is Some,
            clock::rfc3339(ts_bucket) is Some && json::json_value(indicators_json@) is None <==> out
                == Err::<BundlePayload, PublishError>(PublishError::NoJson),
            out is Err ==> out->Err_0 != PublishError::NotPacked,
            out matches Ok(p) ==> self.is_bundle_payload(
                p,
                clock::rfc3339(ts_bucket)->0,
                symbol@,
                json::json_value(indicators_json@)->0,
                indicator_count,
                published_at@,
            ),
    {
        let date: String = match rfc3339_text(ts_bucket) {
            Some(date) => date,
            None => {
                return Err(PublishError::NoDate);
            },
        };
        let indicators: Json = match parse_value(indicators_json) {
            Some(indicators) => indicators,
            None => {
                return Err(PublishError::NoJson);
            },
        };
        let mut document = new_object();
        put_json(&mut document, "indicators", indicators_json);
        let text: String = text_of_value(&indicators);
        Ok(self.bundle_payload(&date, symbol, document, &text, indicator_count, published_at))
    }

    /// Completes a document that holds the indicators.
    fn bundle_payload(
        &self,
        date: &str,
        symbol: &str,
        document: serde_json::Map<String, serde_json::Value>,
        indicators_text: &str,
        indicator_count: usize,
        published_at: &str,
    ) -> (out: BundlePayload)
        requires
            json::members(document) == json::no_members().insert(
                "indicators"@,
                json::members(document)["indicators"@],
            ),
            indicators_text@ == json::value_text(json::members(document)["indicators"@]),
        ensures
            self.is_bundle_payload(
                out,
                date@,
                symbol@,
                json::members(document)["indicators"@],
                indicator_count,
                published_at@,
            ),
    {
        let mut routing_key: String = "bundle.1m.".to_owned();
        routing_key.append(&to_lowercase(symbol));
        let mut identity: String = "ind.minute_bundle|".to_owned();
        identity.append(&to_uppercase(symbol));
        identity.append("|");
        identity.append(date);
        identity.append("|");
        identity.append(indicators_text);
        let message_id: u128 = stable_uuid("message", &identity);
        let trace_id: u128 = stable_uuid("trace", &identity);

        let mut document = document;
        put_whole(&mut document, "schema_version", 1);
        put_text(&mut document, "msg_type", "ind.minute_bundle");
        put_text(&mut document, "message_id", &uuid_text(message_id));
        put_text(&mut document, "trace_id", &uuid_text(trace_id));
        put_text(&mut document, "routing_key", &routing_key);
        put_text(&mut document, "symbol", symbol);
        put_text(&mut document, "ts_bucket", date);
        put_text(&mut document, "window_code", "1m");
        put_whole(&mut document, "indicator_count", indicator_count as u64);
        put_text(&mut document, "published_at", published_at);
        let producer = self.producer();
        put_object(&mut document, "producer", producer);
        BundlePayload {
            routing_key,
            message_id,
            trace_id,
            payload_json: text_of_object(&document),
        }
    }

    /// The message of a bundle of one minute whose indicators are the members of an
    /// object, its document packed.
    pub(crate) fn bundle_outbox_message_of(
        &self,
        ts_bucket: i64,
        symbol: &str,
        indicators: serde_json::Map<String, serde_json::Value>,
        indicator_count: usize,
        published_at: &str,
    ) -> (out: Result<BundleOutboxMessage, PublishError>)
        ensures
            clock::rfc3339(ts_bucket) is None <==> out == Err::<BundleOutboxMessage, PublishError>(
                PublishError::NoDate,
            ),
            clock::has_four_digit_year(ts_bucket) ==> clock::rfc3339(ts_bucket) is Some,
            clock::rfc3339(ts_bucket) is Some ==> {
                let value = JsonView::Object(json::object_text(json::members(indicators)));
                let raw = self.bundle_bytes(
                    ts_bucket,
                    symbol@,
                    value,
                    indicator_count,
                    published_at@,
                );
                match packing::packed_form(raw) {
                    None => out == Err::<BundleOutboxMessage, PublishError>(
                        PublishError::NotPacked,
                    ),
                    Some(packed) => {
                        &&& out matches Ok(m)
                        &&& self.is_bundle_message(m, ts_bucket, symbol@, value, indicator_count)
                        &&& m.payload_bytes@ == packed
                        &&& packing::unpacked(m.payload_bytes@) == Some(raw)
                    },
                }
            },
    {
        let date: String = match rfc3339_text(ts_bucket) {
            Some(date) => date,
            None => {
                return Err(PublishError::NoDate);
            },
        };
        let text: String = text_of_object(&indicators);
        let mut document = new_object();
        put_object(&mut document, "indicators", indicators);
        let payload: BundlePayload = self.bundle_payload(
            &date,
            symbol,
            document,
            &text,
            indicator_count,
            published_at,
        );
        let packed: Option<Vec<u8>> = gzip_json_bytes(&payload.payload_json);
        self.bundle_outbox_message(payload, ts_bucket, symbol, &date, indicator_count, packed)
    }

    fn producer(&self) -> (out: serde_json::Map<String, serde_json::Value>)
        ensures
            json::members(out) == producer_members(self.instance()),
    {
        let mut producer = new_object();
        put_text(&mut producer, "service", "indicator_engine");
        put_text(&mut producer, "instance_id", &self.producer_instance_id);
        producer
    }

    /// The headers of every message.
    pub fn build_headers_json(&self) -> (out: String)
        ensures
            json::is_text_of(out@, header_members(self.instance())),
    {
        let mut headers = new_object();
        put_whole(&mut headers, "schema_version", 1);
        put_text(&mut headers, "producer_service", "indicator_engine");
        put_text(&mut headers, "producer_instance_id", &self.producer_instance_id);
        text_of_object(&headers)
    }
}

/// A document packed, if the compressor packs its bytes; what comes out unpacks to them.
pub fn gzip_json_bytes(payload_json: &str) -> (out: Option<Vec<u8>>)
    ensures
        ({
            let raw = vstd::utf8::encode_utf8(payload_json@);
            &&& (out is Some) == (packing::packed_form(raw) is Some)
            &&& out matches Some(packed) ==> packing::packed_form(raw) == Some(packed@)
                && packing::unpacked(packed@) == Some(raw)
        }),
{
    gzip(payload_json.as_bytes())
}

/// A snapshot message keeps its identity when it is made again, at whatever time, by
/// whatever instance and in whatever letters the symbol is written: messages that agree on
/// the upper-cased symbol, the minute, the code, the window and the payload have one
/// identity. With the same symbol they also go the same way.
pub proof fn law_snapshot_identity_is_stable(
    first: IndPublisher,
    second: IndPublisher,
    a: OutboxMessage,
    b: OutboxMessage,
    date: Seq<char>,
    symbol_a: Seq<char>,
    symbol_b: Seq<char>,
    indicator_code: Seq<char>,
    window_code: Seq<char>,
    payload: JsonView,
    published_a: Seq<char>,
    published_b: Seq<char>,
)
    requires
        first.is_snapshot_message(
            a,
            date,
            symbol_a,
            indicator_code,
            window_code,
            payload,
            published_a,
        ),
        second.is_snapshot_message(
            b,
            date,
            symbol_b,
            indicator_code,
            window_code,
            payload,
            published_b,
        ),
        text::uppercase(symbol_a) == text::uppercase(symbol_b),
    ensures
        a.message_id == b.message_id,
        symbol_a == symbol_b ==> a.routing_key@ == b.routing_key@,
{
}

/// A bundle keeps its identity and its way when it is made again, at whatever time, by
/// whatever instance and whether its document is packed or not.
pub proof fn law_bundle_identity_is_stable(
    first: IndPublisher,
    second: IndPublisher,
    a: BundlePayload,
    b: BundleOutboxMessage,
    ts_bucket: i64,
    symbol: Seq<char>,
    indicators: JsonView,
    count_a: usize,
    count_b: usize,
    published_a: Seq<char>,
)
    requires
        first.is_bundle_payload(
            a,
            clock::rfc3339(ts_bucket)->0,
            symbol,
            indicators,
            count_a,
            published_a,
        ),
        second.is_bundle_message(b, ts_bucket, symbol, indicators, count_b),
    ensures
        a.message_id == b.message_id,
        a.routing_key@ == b.routing_key@,
{
}

/// A consumer of a bundle finds in its document the indicators, the symbol and the kind
/// of message that were put in.
pub proof fn law_bundle_document_holds_what_was_put_in(
    instance_id: Seq<char>,
    symbol: Seq<char>,
    date: Seq<char>,
    indicators: JsonView,
    indicator_count: usize,
    published_at: Seq<char>,
)
    ensures
        ({
            let document = bundle_document(
                instance_id,
                symbol,
                date,
                indicators,
                indicator_count,
                published_at,
            );
            &&& document.contains_key("indicators"@) && document["indicators"@] == indicators
            &&& document.contains_key("symbol"@) && document["symbol"@] == JsonView::Text(symbol)
            &&& document.contains_key("ts_bucket"@) && document["ts_bucket"@] == JsonView::Text(
                date,
            )
            &&& document.contains_key("msg_type"@) && document["msg_type"@] == JsonView::Text(
                "ind.minute_bundle"@,
            )
        }),
{
    reveal_strlit("schema_version");
    reveal_strlit("msg_type");
    reveal_strlit("message_id");
    reveal_strlit("trace_id");
    reveal_strlit("routing_key");
    reveal_strlit("symbol");
    reveal_strlit("ts_bucket");
    reveal_strlit("window_code");
    reveal_strlit("indicator_count");
    reveal_strlit("published_at");
    reveal_strlit("producer");
    reveal_strlit("indicators");
    assert("msg_type"@[0] == 'm' && "message_id"@[1] == 'e' && "msg_type"@[1] == 's');
    assert("symbol"@[0] == 's' && "schema_version"@[1] == 'c' && "symbol"@[1] == 'y');
    assert("ts_bucket"@[0] == 't' && "trace_id"@[1] == 'r' && "ts_bucket"@[1] == 's');
    assert("indicators"@.len() == 10 && "indicator_count"@.len() == 15);
    assert("window_code"@[0] == 'w' && "published_at"@[0] == 'p' && "producer"@[0] == 'p'
        && "routing_key"@[0] == 'r');
}

/// The number that hexadecimal digits stand for.
pub open spec fn hex_read(t: Seq<char>) -> int
    decreases t.len(),
{
    if t.len() == 0 {
        0
    } else {
        hex_read(t.drop_last()) * 16 + if t.last() <= '9' {
            t.last() as u32 - '0' as u32
        } else {
            t.last() as u32 - 'a' as u32 + 10
        }
    }
}

proof fn lemma_hex_digits(n: nat, width: nat)
    requires
        n < vstd::arithmetic::power::pow(16, width),
    ensures
        hex_digits(n, width).len() == width,
        hex_read(hex_digits(n, width)) == n,
    decreases width,
{
    if width > 0 {
        vstd::arithmetic::power::lemma_pow_adds(16, 1, (width - 1) as nat);
        vstd::arithmetic::power::lemma_pow1(16);
        assert(n / 16 < vstd::arithmetic::power::pow(16, (width - 1) as nat)) by {
            vstd::arithmetic::div_mod::lemma_fundamental_div_mod(n as int, 16);
        }
        lemma_hex_digits(n / 16, (width - 1) as nat);
        let t = hex_digits(n, width);
        assert(t.drop_last() =~= hex_digits(n / 16, (width - 1) as nat));
    } else {
        vstd::arithmetic::power::lemma_pow0(16);
    }
}

proof fn lemma_sixteens()
    ensures
        vstd::arithmetic::power::pow(16, 32) > u128::MAX,
{
    vstd::arithmetic::power::lemma_pow1(16);
    vstd::arithmetic::power::lemma_pow_adds(16, 1, 1);
    assert(vstd::arithmetic::power::pow(16, 2) == 256);
    vstd::arithmetic::power::lemma_pow_adds(16, 2, 2);
    assert(vstd::arithmetic::power::pow(16, 4) == 65_536);
    vstd::arithmetic::power::lemma_pow_adds(16, 4, 4);
    assert(vstd::arithmetic::power::pow(16, 8) == 4_294_967_296);
    vstd::arithmetic::power::lemma_pow_adds(16, 8, 8);
    assert(vstd::arithmetic::power::pow(16, 16) == 18_446_744_073_709_551_616);
    vstd::arithmetic::power::lemma_pow_adds(16, 16, 16);
}

/// An identity is written in 36 characters, with hyphens after 8, 12, 16 and 20 of its 32
/// digits, which without the hyphens read as the identity.
pub proof fn law_identities_are_read_back(id: u128)
    ensures
        ({
            let t = hyphenated(id);
            &&& t.len() == 36
            &&& t[8] == '-' && t[13] == '-' && t[18] == '-' && t[23] == '-'
            &&& hex_read(
                t.subrange(0, 8) + t.subrange(9, 13) + t.subrange(14, 18) + t.subrange(19, 23)
                    + t.subrange(24, 36),
            ) == id
        }),
{
    reveal_strlit("-");
    lemma_sixteens();
    lemma_hex_digits(id as nat, 32);
    let h = hex_digits(id as nat, 32);
    let t = hyphenated(id);
    assert(t.subrange(0, 8) + t.subrange(9, 13) + t.subrange(14, 18) + t.subrange(19, 23)
        + t.subrange(24, 36) =~= h);
}

/// The document of a snapshot says which indicator it is of, over which window, of which symbol
/// and minute, when it was published and by whom, and holds what the indicator gave. Its
/// message and its trace are told apart by their scope.
pub proof fn law_snapshot_document_holds_what_was_put_in(
    instance_id: Seq<char>,
    symbol: Seq<char>,
    date: Seq<char>,
    indicator_code: Seq<char>,
    window_code: Seq<char>,
    payload: JsonView,
    published_at: Seq<char>,
)
    ensures
        ({
            let document = snapshot_document(
                instance_id,
                symbol,
                date,
                indicator_code,
                window_code,
                payload,
                published_at,
            );
            let identity = snapshot_identity(symbol, date, indicator_code, window_code, payload);
            &&& document["indicator_code"@] == JsonView::Text(indicator_code)
            &&& document["window_code"@] == JsonView::Text(window_code)
            &&& document["symbol"@] == JsonView::Text(symbol)
            &&& document["event_ts"@] == JsonView::Text(date)
            &&& document["published_at"@] == JsonView::Text(published_at)
            &&& document["data"@] == payload
            &&& document["msg_type"@] == JsonView::Text("ind.snapshot"@)
            &&& document["schema_version"@] == JsonView::Number("1"@)
            &&& document["routing_key"@] == JsonView::Text(
                "evt."@ + indicator_code + "."@ + text::lowercase(symbol),
            )
            &&& document["message_id"@] == JsonView::Text(
                hyphenated(stable_id("message"@, identity)),
            )
            &&& document["trace_id"@] == JsonView::Text(hyphenated(stable_id("trace"@, identity)))
            &&& document["producer"@] == JsonView::Object(
                json::object_text(producer_members(instance_id)),
            )
            &&& document.dom() =~= set![
                "schema_version"@, "msg_type"@, "message_id"@, "trace_id"@, "routing_key"@,
                "indicator_code"@, "window_code"@, "symbol"@, "event_ts"@, "published_at"@,
                "producer"@, "data"@]
        }),
{
    reveal_strlit("1");
    assert("1"@ =~= text::digits(1));
    lemma_names_apart();
}

proof fn lemma_names_apart()
    ensures
        "schema_version"@.len() == 14,
        "msg_type"@.len() == 8,
        "message_id"@.len() == 10,
        "trace_id"@.len() == 8,
        "routing_key"@.len() == 11,
        "indicator_code"@.len() == 14,
        "window_code"@.len() == 11,
        "symbol"@.len() == 6,
        "event_ts"@.len() == 8,
        "published_at"@.len() == 12,
        "producer"@.len() == 8,
        "data"@.len() == 4,
        "indicators"@.len() == 10,
        "ts_bucket"@.len() == 9,
        "indicator_count"@.len() == 15,
        "indicators"@[0] == 'i',
        "message_id"@[0] == 'm',
        "schema_version"@[0] == 's',
        "indicator_code"@[0] == 'i',
        "msg_type"@[0] == 'm',
        "trace_id"@[0] == 't',
        "event_ts"@[0] == 'e',
        "producer"@[0] == 'p',
        "routing_key"@[0] == 'r',
        "window_code"@[0] == 'w',
{
    reveal_strlit("schema_version");
    reveal_strlit("msg_type");
    reveal_strlit("message_id");
    reveal_strlit("trace_id");
    reveal_strlit("routing_key");
    reveal_strlit("indicator_code");
    reveal_strlit("window_code");
    reveal_strlit("symbol");
    reveal_strlit("event_ts");
    reveal_strlit("published_at");
    reveal_strlit("producer");
    reveal_strlit("data");
    reveal_strlit("indicators");
    reveal_strlit("ts_bucket");
    reveal_strlit("indicator_count");
}

/// The document of a bundle names its message, its trace, where it is sent, the window of one
/// minute, how many indicators it holds, when it was published and by whom, and no more than
/// that and the indicators of its symbol and minute.
pub proof fn law_bundle_document_names_its_message(
    instance_id: Seq<char>,
    symbol: Seq<char>,
    date: Seq<char>,
    indicators: JsonView,
    indicator_count: usize,
    published_at: Seq<char>,
)
    ensures
        ({
            let document = bundle_document(
                instance_id,
                symbol,
                date,
                indicators,
                indicator_count,
                published_at,
            );
            let identity = bundle_identity(symbol, date, indicators);
            &&& document["schema_version"@] == JsonView::Number("1"@)
            &&& document["routing_key"@] == JsonView::Text("bundle.1m."@ + text::lowercase(symbol))
            &&& document["message_id"@] == JsonView::Text(
                hyphenated(stable_id("message"@, identity)),
            )
            &&& document["trace_id"@] == JsonView::Text(hyphenated(stable_id("trace"@, identity)))
            &&& document["window_code"@] == JsonView::Text("1m"@)
            &&& document["indicator_count"@] == JsonView::Number(
                text::digits(indicator_count as nat),
            )
            &&& document["published_at"@] == JsonView::Text(published_at)
            &&& document["producer"@] == JsonView::Object(
                json::object_text(producer_members(instance_id)),
            )
            &&& document.dom() =~= set![
                "indicators"@, "schema_version"@, "msg_type"@, "message_id"@, "trace_id"@,
                "routing_key"@, "symbol"@, "ts_bucket"@, "window_code"@, "indicator_count"@,
                "published_at"@, "producer"@]
        }),
{
    lemma_names_apart();
    reveal_strlit("1");
    assert("1"@ =~= text::digits(1));
}

/// What is kept of a bundle in place of its document names its symbol, its minute, the window
/// of one minute, how many indicators it holds and its kind, and nothing else.
pub proof fn law_stub_members(symbol: Seq<char>, date: Seq<char>, indicator_count: usize)
    ensures
        ({
            let stub = bundle_stub(symbol, date, indicator_count);
            &&& stub["symbol"@] == JsonView::Text(symbol)
            &&& stub["ts_bucket"@] == JsonView::Text(date)
            &&& stub["window_code"@] == JsonView::Text("1m"@)
            &&& stub["indicator_count"@] == JsonView::Number(text::digits(indicator_count as nat))
            &&& stub["msg_type"@] == JsonView::Text("ind.minute_bundle"@)
            &&& stub.dom() =~= set![
                "symbol"@, "ts_bucket"@, "window_code"@, "indicator_count"@, "msg_type"@]
        }),
{
    lemma_names_apart();
}

/// A producer names its service and its instance, and so do the headers of a message, with the
/// version of its form.
pub proof fn law_producers(instance_id: Seq<char>)
    ensures
        producer_members(instance_id)["service"@] == JsonView::Text("indicator_engine"@),
        producer_members(instance_id)["instance_id"@] == JsonView::Text(instance_id),
        producer_members(instance_id).dom() =~= set!["service"@, "instance_id"@],
        header_members(instance_id)["schema_version"@] == JsonView::Number("1"@),
        header_members(instance_id)["producer_service"@] == JsonView::Text("indicator_engine"@),
        header_members(instance_id)["producer_instance_id"@] == JsonView::Text(instance_id),
        header_members(instance_id).dom() =~= set![
            "schema_version"@, "producer_service"@, "producer_instance_id"@],
{
    reveal_strlit("service");
    reveal_strlit("instance_id");
    reveal_strlit("schema_version");
    reveal_strlit("producer_service");
    reveal_strlit("producer_instance_id");
    reveal_strlit("1");
    assert("1"@ =~= text::digits(1));
    assert("service"@.len() == 7 && "instance_id"@.len() == 11);
    assert("schema_version"@.len() == 14 && "producer_service"@.len() == 16
        && "producer_instance_id"@.len() == 20);
}

proof fn lemma_middle(front: Seq<char>, x: Seq<char>, y: Seq<char>, back: Seq<char>)
    requires
        front + x + back == front + y + back,
    ensures
        x == y,
{
    let a = front + x + back;
    let b = front + y + back;
    assert(a.len() == front.len() + x.len() + back.len());
    assert(b.len() == front.len() + y.len() + back.len());
    assert forall|i: int| 0 <= i < x.len() implies x[i] == y[i] by {
        assert(a[front.len() + i] == x[i]);
        assert(b[front.len() + i] == y[i]);
    }
    assert(x =~= y);
}

proof fn lemma_identities_differ_by_date(
    symbol: Seq<char>,
    date: Seq<char>,
    indicator_code: Seq<char>,
    window_code: Seq<char>,
    payload: JsonView,
    other: Seq<char>,
)
    requires
        snapshot_identity(symbol, other, indicator_code, window_code, payload) == snapshot_identity(
            symbol,
            date,
            indicator_code,
            window_code,
            payload,
        ),
    ensures
        other == date,
{
    let head = "ind.snapshot|"@;
    let bar = "|"@;
    let s = text::uppercase(symbol);
    let v = json::value_text(payload);
    let identity = snapshot_identity(symbol, date, indicator_code, window_code, payload);
    let front = head + s + bar;
    let back = bar + indicator_code + bar + window_code + bar + v;
    assert(identity =~= front + date + back);
    assert(snapshot_identity(symbol, other, indicator_code, window_code, payload) =~= front
        + other + back);
    lemma_middle(front, other, date, back);
}

proof fn lemma_identities_differ_by_indicator(
    symbol: Seq<char>,
    date: Seq<char>,
    indicator_code: Seq<char>,
    window_code: Seq<char>,
    payload: JsonView,
    other: Seq<char>,
)
    requires
        snapshot_identity(symbol, date, other, window_code, payload) == snapshot_identity(
            symbol,
            date,
            indicator_code,
            window_code,
            payload,
        ),
    ensures
        other == indicator_code,
{
    let head = "ind.snapshot|"@;
    let bar = "|"@;
    let s = text::uppercase(symbol);
    let v = json::value_text(payload);
    let identity = snapshot_identity(symbol, date, indicator_code, window_code, payload);
    let front = head + s + bar + date + bar;
    let back = bar + window_code + bar + v;
    assert(identity =~= front + indicator_code + back);
    assert(snapshot_identity(symbol, date, other, window_code, payload) =~= front + other
        + back);
    lemma_middle(front, other, indicator_code, back);
}

proof fn lemma_identities_differ_by_window(
    symbol: Seq<char>,
    date: Seq<char>,
    indicator_code: Seq<char>,
    window_code: Seq<char>,
    payload: JsonView,
    other: Seq<char>,
)
    requires
        snapshot_identity(symbol, date, indicator_code, other, payload) == snapshot_identity(
            symbol,
            date,
            indicator_code,
            window_code,
            payload,
        ),
    ensures
        other == window_code,
{
    let head = "ind.snapshot|"@;
    let bar = "|"@;
    let s = text::uppercase(symbol);
    let v = json::value_text(payload);
    let identity = snapshot_identity(symbol, date, indicator_code, window_code, payload);
    let front = head + s + bar + date + bar + indicator_code + bar;
    let back = bar + v;
    assert(identity =~= front + window_code + back);
    assert(snapshot_identity(symbol, date, indicator_code, other, payload) =~= front + other
        + back);
    lemma_middle(front, other, window_code, back);
}

proof fn lemma_identities_differ_by_payload(
    symbol: Seq<char>,
    date: Seq<char>,
    indicator_code: Seq<char>,
    window_code: Seq<char>,
    payload: JsonView,
    other_payload: JsonView,
)
    requires
        snapshot_identity(symbol, date, indicator_code, window_code, other_payload) == snapshot_identity(
            symbol,
            date,
            indicator_code,
            window_code,
            payload,
        ),
    ensures
        json::value_text(other_payload) == json::value_text(payload),
{
    let head = "ind.snapshot|"@;
    let bar = "|"@;
    let s = text::uppercase(symbol);
    let v = json::value_text(payload);
    let none = Seq::<char>::empty();
    let identity = snapshot_identity(symbol, date, indicator_code, window_code, payload);
    let front = head + s + bar + date + bar + indicator_code + bar + window_code + bar;
    let w = json::value_text(other_payload);
    assert(identity =~= front + v + none);
    assert(snapshot_identity(symbol, date, indicator_code, window_code, other_payload)
        =~= front + w + none);
    lemma_middle(front, w, v, none);
}

proof fn lemma_identities_differ_by_symbol(
    symbol: Seq<char>,
    date: Seq<char>,
    indicator_code: Seq<char>,
    window_code: Seq<char>,
    payload: JsonView,
    other: Seq<char>,
)
    requires
        snapshot_identity(other, date, indicator_code, window_code, payload) == snapshot_identity(
            symbol,
            date,
            indicator_code,
            window_code,
            payload,
        ),
    ensures
        text::uppercase(other) == text::uppercase(symbol),
{
    let head = "ind.snapshot|"@;
    let bar = "|"@;
    let s = text::uppercase(symbol);
    let v = json::value_text(payload);
    let identity = snapshot_identity(symbol, date, indicator_code, window_code, payload);
    let back = bar + date + bar + indicator_code + bar + window_code + bar + v;
    let o = text::uppercase(other);
    assert(identity =~= head + s + back);
    assert(snapshot_identity(other, date, indicator_code, window_code, payload) =~= head + o
        + back);
    lemma_middle(head, o, s, back);
}

/// Two snapshots that differ in their minute, their indicator, their window or what the
/// indicator gave, and in nothing else, have different identities.
pub proof fn law_snapshot_identities_differ(
    symbol: Seq<char>,
    date: Seq<char>,
    indicator_code: Seq<char>,
    window_code: Seq<char>,
    payload: JsonView,
    other: Seq<char>,
    other_payload: JsonView,
)
    ensures
        ({
            let identity = snapshot_identity(symbol, date, indicator_code, window_code, payload);
            &&& snapshot_identity(symbol, other, indicator_code, window_code, payload) == identity
                ==> other == date
            &&& snapshot_identity(symbol, date, other, window_code, payload) == identity ==> other
                == indicator_code
            &&& snapshot_identity(symbol, date, indicator_code, other, payload) == identity
                ==> other == window_code
            &&& snapshot_identity(symbol, date, indicator_code, window_code, other_payload)
                == identity ==> json::value_text(other_payload) == json::value_text(payload)
            &&& snapshot_identity(other, date, indicator_code, window_code, payload) == identity
                ==> text::uppercase(other) == text::uppercase(symbol)
        }),
{
    let identity = snapshot_identity(symbol, date, indicator_code, window_code, payload);
    if snapshot_identity(symbol, other, indicator_code, window_code, payload) == identity {
        lemma_identities_differ_by_date(
            symbol,
            date,
            indicator_code,
            window_code,
            payload,
            other,
        );
    }
    if snapshot_identity(symbol, date, other, window_code, payload) == identity {
        lemma_identities_differ_by_indicator(
            symbol,
            date,
            indicator_code,
            window_code,
            payload,
            other,
        );
    }
    if snapshot_identity(symbol, date, indicator_code, other, payload) == identity {
        lemma_identities_differ_by_window(
            symbol,
            date,
            indicator_code,
            window_code,
            payload,
            other,
        );
    }
    if snapshot_identity(symbol, date, indicator_code, window_code, other_payload) == identity {
        lemma_identities_differ_by_payload(
            symbol,
            date,
            indicator_code,
            window_code,
            payload,
            other_payload,
        );
    }
    if snapshot_identity(other, date, indicator_code, window_code, payload) == identity {
        lemma_identities_differ_by_symbol(
            symbol,
            date,
            indicator_code,
            window_code,
            payload,
            other,
        );
    }
}

/// Two bundles that differ in their minute, or in their indicators, and in nothing else, have
/// different identities.
pub proof fn law_bundle_identities_differ(
    symbol: Seq<char>,
    date: Seq<char>,
    indicators: JsonView,
    other: Seq<char>,
    other_indicators: JsonView,
)
    ensures
        bundle_identity(symbol, other, indicators) == bundle_identity(symbol, date, indicators)
            ==> other == date,
        bundle_identity(symbol, date, other_indicators) == bundle_identity(
            symbol,
            date,
            indicators,
        ) ==> json::value_text(other_indicators) == json::value_text(indicators),
        bundle_identity(other, date, indicators) == bundle_identity(symbol, date, indicators)
            ==> text::uppercase(other) == text::uppercase(symbol),
{
    let head = "ind.minute_bundle|"@;
    let bar = "|"@;
    let s = text::uppercase(symbol);
    let v = json::value_text(indicators);
    let none = Seq::<char>::empty();
    let identity = bundle_identity(symbol, date, indicators);
    if bundle_identity(symbol, other, indicators) == identity {
        assert(identity =~= (head + s + bar) + date + (bar + v));
        assert(bundle_identity(symbol, other, indicators) =~= (head + s + bar) + other + (bar + v));
        lemma_middle(head + s + bar, other, date, bar + v);
    }
    if bundle_identity(symbol, date, other_indicators) == identity {
        let front = head + s + bar + date + bar;
        let w = json::value_text(other_indicators);
        assert(identity =~= front + v + none);
        assert(bundle_identity(symbol, date, other_indicators) =~= front + w + none);
        lemma_middle(front, w, v, none);
    }
    if bundle_identity(other, date, indicators) == identity {
        let back = bar + date + bar + v;
        let o = text::uppercase(other);
        assert(identity =~= head + s + back);
        assert(bundle_identity(other, date, indicators) =~= head + o + back);
        lemma_middle(head, o, s, back);
    }
}

} // verus!
