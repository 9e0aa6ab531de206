//! What is sent to the broker for a waiting row, and what becomes of the row afterwards.

use crate::clock;
use crate::clock::{parse_rfc3339, utc_text};
use crate::history::copied;
use crate::json;
use crate::json::{
    keys, member, new_object, parse_object, parse_value, put_json, put_object, put_text,
    text_of_object, text_of_value, Json, JsonView,
};
use crate::packing;
use crate::packing::{gunzip, gzip};
use crate::publisher;
use crate::publisher::{BundleOutboxMessage, IndPublisher, IndicatorSnapshotRow, PublishError};
use crate::text;
use crate::text::{eq_ignore_ascii_case, same_text, signed_decimal, to_uppercase, trim};
use vstd::prelude::*;
use vstd::string::StringExecFns;

verus! {

/// No more batches than this are sent before the dispatcher waits again.
pub const OUTBOX_MAX_BATCHES_PER_WAKE: usize = 32;

/// No more batches of dead rows than this are deleted in one round.
pub const OUTBOX_GC_MAX_BATCHES_PER_ROUND: usize = 3;

/// How many dead rows are deleted at once.
pub const OUTBOX_GC_BATCH_SIZE: u64 = 10_000;

/// From how many milliseconds on claiming a batch counts as slow.
pub const OUTBOX_CLAIM_WARN_MS: u128 = 1_000;

/// From how many milliseconds on sending a batch counts as slow.
pub const OUTBOX_DISPATCH_WARN_MS: u128 = 2_000;

/// The body of a message and how it is encoded.
#[derive(Clone, Debug, PartialEq, Eq)]
pub struct PublishPayload {
    pub body: Vec<u8>,
    pub content_encoding: Option<String>,
}

/// A row of the outbox, as far as its payload rests on it.
#[derive(Clone, Debug, PartialEq, Eq)]
pub struct OutboxRow {
    pub outbox_id: i64,
    pub symbol: Option<String>,
    pub ts_bucket: Option<i64>,
    pub indicator_count: Option<i32>,
    pub payload_json: String,
}

/// A packed document that was kept.
#[derive(Clone, Debug, PartialEq, Eq)]
pub struct CachedBundlePayloadRow {
    pub payload_encoding: String,
    pub payload_bytes: Vec<u8>,
}

/// Why there is nothing to send for a row.
#[derive(Clone, Debug, PartialEq, Eq)]
pub enum PayloadError {
    /// The encoding is not known.
    UnsupportedEncoding(String),
    /// Neither the row nor its document names a symbol.
    MissingSymbol,
    /// Neither the row nor its document names a minute.
    MissingTsBucket,
    /// No indicator gave anything for the symbol and the minute.
    NoSnapshotRows { symbol: String, ts_bucket: i64 },
    /// A document is no JSON.
    NoJson,
    /// The document could not be packed.
    NotPacked,
    /// The minute has no calendar date.
    NoDate,
}

/// An instant as it is displayed; its microseconds where it has no calendar date.
pub open spec fn shown(ts: i64) -> Seq<char> {
    match clock::utc_display(ts) {
        Some(t) => t,
        None => text::signed_digits(ts as int),
    }
}

fn show(ts: i64) -> (out: String)
    ensures
        out@ == shown(ts),
{
    match utc_text(ts) {
        Some(t) => t,
        None => signed_decimal(ts),
    }
}

/// Whether an error says that nothing was found for the symbol and the minute.
pub open spec fn misses_snapshots(e: PayloadError, symbol: Seq<char>, ts_bucket: i64) -> bool {
    e matches PayloadError::NoSnapshotRows { symbol: s, ts_bucket: ts } && s@ == symbol && ts
        == ts_bucket
}

impl PayloadError {
    /// What the error says.
    pub open spec fn says(&self) -> Seq<char> {
        match *self {
            PayloadError::UnsupportedEncoding(encoding) =>
                "unsupported indicator bundle payload encoding: "@ + encoding@,
            PayloadError::MissingSymbol => "outbox row missing symbol"@,
            PayloadError::MissingTsBucket => "outbox row missing ts_bucket"@,
            PayloadError::NoSnapshotRows { symbol, ts_bucket } =>
                "no snapshot rows found for symbol="@ + symbol@ + " ts_bucket="@ + shown(ts_bucket),
            PayloadError::NoJson => "payload is no json"@,
            PayloadError::NotPacked => "gzip indicator bundle payload"@,
            PayloadError::NoDate => "minute has no calendar date"@,
        }
    }

    /// What the error says.
    pub fn message(&self) -> (out: String)
        ensures
            out@ == self.says(),
    {
        match self {
            PayloadError::UnsupportedEncoding(encoding) => {
                let mut out: String = "unsupported indicator bundle payload encoding: ".to_owned();
                out.append(encoding);
                out
            },
            PayloadError::MissingSymbol => "outbox row missing symbol".to_owned(),
            PayloadError::MissingTsBucket => "outbox row missing ts_bucket".to_owned(),
            PayloadError::NoSnapshotRows { symbol, ts_bucket } => {
                let mut out: String = "no snapshot rows found for symbol=".to_owned();
                out.append(symbol);
                out.append(" ts_bucket=");
                out.append(&show(*ts_bucket));
                out
            },
            PayloadError::NoJson => "payload is no json".to_owned(),
            PayloadError::NotPacked => "gzip indicator bundle payload".to_owned(),
            PayloadError::NoDate => "minute has no calendar date".to_owned(),
        }
    }
}

/// Whether the name of an encoding, white space and case aside, is that of no encoding.
pub open spec fn is_plain(encoding: Seq<char>) -> bool {
    let t = text::trimmed(encoding);
    t.len() == 0 || text::same_but_for_case(t, "identity"@)
}

/// Whether the name of an encoding, white space and case aside, is that of gzip.
pub open spec fn is_gzip(encoding: Seq<char>) -> bool {
    let t = text::trimmed(encoding);
    text::same_but_for_case(t, "gzip"@) || text::same_but_for_case(t, "x-gzip"@)
}

/// The one name that each known encoding goes by; none for no encoding.
pub fn normalize_payload_encoding(payload_encoding: &str) -> (out: Result<
    Option<String>,
    PayloadError,
>)
    ensures
        is_plain(payload_encoding@) ==> out == Ok::<Option<String>, PayloadError>(None),
        !is_plain(payload_encoding@) && is_gzip(payload_encoding@) ==> (out matches Ok(Some(name))
            && name@ == "gzip"@),
        !is_plain(payload_encoding@) && !is_gzip(payload_encoding@) ==> (out matches Err(
            PayloadError::UnsupportedEncoding(name),
        ) && name@ == payload_encoding@),
{
    let trimmed: &str = trim(payload_encoding);
    if trimmed.unicode_len() == 0 || eq_ignore_ascii_case(trimmed, "identity") {
        return Ok(None);
    }
    if eq_ignore_ascii_case(trimmed, "gzip") || eq_ignore_ascii_case(trimmed, "x-gzip") {
        return Ok(Some("gzip".to_owned()));
    }
    Err(PayloadError::UnsupportedEncoding(payload_encoding.to_owned()))
}

/// No name is that of gzip and of no encoding.
pub proof fn law_encodings_are_apart(encoding: Seq<char>)
    ensures
        !(is_plain(encoding) && is_gzip(encoding)),
{
    let t = text::trimmed(encoding);
    reveal_strlit("identity");
    reveal_strlit("gzip");
    reveal_strlit("x-gzip");
    if text::same_but_for_case(t, "identity"@) {
        assert(t.len() == 8);
    }
}

/// What a body reads as under its encoding; nothing where it is damaged or the encoding
/// is not known.
pub open spec fn reads_as(body: Seq<u8>, encoding: Option<Seq<char>>) -> Option<Seq<u8>> {
    match encoding {
        None => Some(body),
        Some(name) => if name == "gzip"@ {
            packing::unpacked(body)
        } else {
            None
        },
    }
}

/// The name of an encoding, where there is one.
pub open spec fn encoding_name(encoding: Option<String>) -> Option<Seq<char>> {
    match encoding {
        None => None,
        Some(name) => Some(name@),
    }
}

impl PublishPayload {
    /// What the body reads as.
    pub open spec fn reads(&self) -> Option<Seq<u8>> {
        reads_as(self.body@, encoding_name(self.content_encoding))
    }

    /// What the body reads as.
    pub fn decoded(&self) -> (out: Option<Vec<u8>>)
        ensures
            (out is Some) == (self.reads() is Some),
            out matches Some(raw) ==> self.reads() == Some(raw@),
    {
        match &self.content_encoding {
            None => Some(copied(&self.body)),
            Some(name) => if same_text(name, "gzip") {
                gunzip(&self.body)
            } else {
                None
            },
        }
    }
}

/// The bytes of the compact text of a JSON text.
pub open spec fn compact_bytes(payload_json: Seq<char>) -> Option<Seq<u8>> {
    match json::json_value(payload_json) {
        None => None,
        Some(value) => Some(vstd::utf8::encode_utf8(json::value_text(value))),
    }
}

/// Whether packing bytes gives a result: an error exactly where the compressor fails, else a
/// payload that is marked as gzip, holds what the compressor gave and reads as the bytes.
pub open spec fn is_packed(out: Result<PublishPayload, PayloadError>, raw: Seq<u8>) -> bool {
    match packing::packed_form(raw) {
        None => out == Err::<PublishPayload, PayloadError>(PayloadError::NotPacked),
        Some(packed) => {
            &&& out matches Ok(payload)
            &&& payload.body@ == packed
            &&& payload.content_encoding matches Some(name)
            &&& name@ == "gzip"@
            &&& payload.reads() == Some(raw)
        },
    }
}

/// A document to be sent packed.
pub fn gzip_json_value(payload_json: &str) -> (out: Result<PublishPayload, PayloadError>)
    ensures
        compact_bytes(payload_json@) is None <==> out == Err::<PublishPayload, PayloadError>(
            PayloadError::NoJson,
        ),
        compact_bytes(payload_json@) matches Some(raw) ==> is_packed(out, raw),
{
    let value: Json = match parse_value(payload_json) {
        Some(value) => value,
        None => {
            return Err(PayloadError::NoJson);
        },
    };
    let raw: String = text_of_value(&value);
    packed_payload(gzip(raw.as_str().as_bytes()))
}

/// A payload once packing was tried.
pub fn packed_payload(packed: Option<Vec<u8>>) -> (out: Result<PublishPayload, PayloadError>)
    ensures
        packed is None ==> out == Err::<PublishPayload, PayloadError>(PayloadError::NotPacked),
        packed matches Some(bytes) ==> {
            &&& out matches Ok(payload)
            &&& payload.body@ == bytes@
            &&& payload.content_encoding matches Some(name)
            &&& name@ == "gzip"@
        },
{
    match packed {
        None => Err(PayloadError::NotPacked),
        Some(body) => Ok(
            PublishPayload { body, content_encoding: Some("gzip".to_owned()) },
        ),
    }
}

/// A document to be sent as it is.
pub fn identity_json_publish_payload(payload_json: &str) -> (out: Result<
    PublishPayload,
    PayloadError,
>)
    ensures
        compact_bytes(payload_json@) is None ==> out == Err::<PublishPayload, PayloadError>(
            PayloadError::NoJson,
        ),
        compact_bytes(payload_json@) matches Some(raw) ==> {
            &&& out matches Ok(payload)
            &&& payload.body@ == raw
            &&& payload.content_encoding is None
        },
{
    match parse_value(payload_json) {
        None => Err(PayloadError::NoJson),
        Some(value) => {
            let raw: String = text_of_value(&value);
            Ok(
                PublishPayload {
                    body: vstd::slice::slice_to_vec(raw.as_str().as_bytes()),
                    content_encoding: None,
                },
            )
        },
    }
}

/// A document reads the same whether it is sent packed or as it is.
pub proof fn law_payloads_read_as_their_document(
    payload_json: Seq<char>,
    packed: PublishPayload,
    plain: PublishPayload,
)
    requires
        packed.reads() == compact_bytes(payload_json),
        compact_bytes(payload_json) == Some(plain.body@),
        plain.content_encoding is None,
    ensures
        packed.reads() == plain.reads(),
{
}

/// A table of header fields.
#[verifier::external_type_specification]
#[verifier::external_body]
pub struct ExFieldTable(lapin::types::FieldTable);

/// The value of a header field.
pub enum HeaderView {
    Flag(bool),
    Text(Seq<char>),
}

/// What a table of header fields holds.
pub uninterp spec fn fields(table: lapin::types::FieldTable) -> Map<Seq<char>, HeaderView>;

/// The fields of an empty table.
pub open spec fn no_fields() -> Map<Seq<char>, HeaderView> {
    Map::empty()
}

/// `lapin::types::FieldTable::default`: a table without fields.
#[verifier::external_body]
fn new_table() -> (out: lapin::types::FieldTable)
    ensures
        fields(out) == no_fields(),
{
    lapin::types::FieldTable::default()
}

/// `lapin::types::FieldTable::insert` of a long string: the field of that name, new or
/// not, is the text, and no other field changes.
#[verifier::external_body]
fn set_text(table: &mut lapin::types::FieldTable, name: &str, value: &str)
    ensures
        fields(*final(table)) == fields(*old(table)).insert(name@, HeaderView::Text(value@)),
{
    let value = lapin::types::LongString::from(value);
    table.insert(
        lapin::types::ShortString::from(name),
        lapin::types::AMQPValue::LongString(value),
    );
}

/// `lapin::types::FieldTable::insert` of a boolean.
#[verifier::external_body]
fn set_flag(table: &mut lapin::types::FieldTable, name: &str, value: bool)
    ensures
        fields(*final(table)) == fields(*old(table)).insert(name@, HeaderView::Flag(value)),
{
    table.insert(
        lapin::types::ShortString::from(name),
        lapin::types::AMQPValue::Boolean(value),
    );
}

/// The header field that a JSON value is sent as: a boolean as itself, anything else as
/// text.
pub open spec fn header_of(value: JsonView) -> HeaderView {
    match value {
        JsonView::Bool(b) => HeaderView::Flag(b),
        JsonView::Number(t) => HeaderView::Text(t),
        JsonView::Text(t) => HeaderView::Text(t),
        JsonView::Null => HeaderView::Text(Seq::empty()),
        JsonView::Array(t) => HeaderView::Text(t),
        JsonView::Object(t) => HeaderView::Text(t),
    }
}

/// The header fields that the members of an object are sent as.
pub open spec fn headers_of(object: Map<Seq<char>, JsonView>) -> Map<Seq<char>, HeaderView> {
    Map::new(|k: Seq<char>| object.contains_key(k), |k: Seq<char>| header_of(object[k]))
}

/// Sets the header field that a JSON value is sent as.
fn json_to_amqp_value(table: &mut lapin::types::FieldTable, name: &str, value: &Json)
    ensures
        fields(*final(table)) == fields(*old(table)).insert(name@, header_of(value@)),
{
    match value {
        Json::Bool(b) => set_flag(table, name, *b),
        Json::Number(t) => set_text(table, name, t),
        Json::Text(t) => set_text(table, name, t),
        Json::Null => {
            proof {
                reveal_strlit("");
                assert(""@ =~= Seq::<char>::empty());
            }
            set_text(table, name, "")
        },
        Json::Array(t) => set_text(table, name, t),
        Json::Object(t) => set_text(table, name, t),
    }
}

/// The header fields of a JSON object; nothing where the text is no JSON object.
pub fn json_to_field_table(raw: &str) -> (out: Option<lapin::types::FieldTable>)
    ensures
        (out is Some) == (json::json_members(raw@) is Some),
        out matches Some(table) ==> fields(table) == headers_of(json::json_members(raw@)->0),
{
    let object = match parse_object(raw) {
        Some(object) => object,
        None => {
            return None;
        },
    };
    let names: Vec<String> = keys(&object);
    let ghost all = json::members(object);
    let mut table = new_table();
    let mut i: usize = 0;
    while i < names.len()
        invariant
            i <= names@.len(),
            all == json::members(object),
            forall|j: int| 0 <= j < names@.len() ==> all.contains_key((#[trigger] names@[j])@),
            forall|k: Seq<char>| #[trigger]
                fields(table).contains_key(k) <==> is_among(names@, i as int, k),
            forall|k: Seq<char>| #[trigger]
                fields(table).contains_key(k) ==> fields(table)[k] == header_of(all[k]),
        decreases names@.len() - i,
    {
        let ghost before = fields(table);
        if let Some(value) = member(&object, &names[i]) {
            json_to_amqp_value(&mut table, &names[i], &value);
        } else {
            assert(all.contains_key(names@[i as int]@));
        }
        proof {
            let name = names@[i as int]@;
            assert(all.contains_key(name));
            assert forall|k: Seq<char>| #[trigger] fields(table).contains_key(k) <==> is_among(
                names@,
                i + 1,
                k,
            ) by {
                assert(before.contains_key(k) <==> is_among(names@, i as int, k));
                if is_among(names@, i + 1, k) && k != name {
                    let j = choose|j: int| 0 <= j < i + 1 && (#[trigger] names@[j])@ == k;
                    assert(j < i);
                    assert(is_among(names@, i as int, k));
                }
                if is_among(names@, i as int, k) {
                    let j = choose|j: int| 0 <= j < i && (#[trigger] names@[j])@ == k;
                    assert(is_among(names@, i + 1, k));
                }
                if k == name {
                    assert(is_among(names@, i + 1, k));
                }
            }
        }
        i += 1;
    }
    proof {
        assert(fields(table) =~= headers_of(all)) by {
            assert forall|k: Seq<char>| #[trigger] fields(table).contains_key(k)
                <==> all.contains_key(k) by {
                if all.contains_key(k) {
                    let j = choose|j: int| 0 <= j < names@.len() && (#[trigger] names@[j])@ == k;
                    assert(is_among(names@, i as int, k));
                }
                if is_among(names@, i as int, k) {
                    let j = choose|j: int| 0 <= j < i && (#[trigger] names@[j])@ == k;
                    assert(all.contains_key(names@[j]@));
                }
            }
        }
    }
    Some(table)
}

/// Whether a key is among the first `hi` names.
spec fn is_among(names: Seq<String>, hi: int, key: Seq<char>) -> bool {
    exists|j: int| 0 <= j < hi && (#[trigger] names[j])@ == key
}

/// The header fields of a message: those of its JSON headers, and the encoding where
/// there is one.
pub fn build_publish_headers(raw: &str, content_encoding: Option<&str>) -> (out: Option<
    lapin::types::FieldTable,
>)
    ensures
        (out is Some) == (json::json_members(raw@) is Some),
        out matches Some(table) ==> fields(table) == match content_encoding {
            None => headers_of(json::json_members(raw@)->0),
            Some(name) => headers_of(json::json_members(raw@)->0).insert(
                "content_encoding"@,
                HeaderView::Text(name@),
            ),
        },
{
    match json_to_field_table(raw) {
        None => None,
        Some(mut table) => {
            if let Some(name) = content_encoding {
                set_text(&mut table, "content_encoding", name);
            }
            Some(table)
        },
    }
}

/// What is to be done to send a row.
#[derive(Clone, Debug, PartialEq, Eq)]
pub enum PayloadPlan {
    /// The document of the row is whole: send it.
    Ready(PublishPayload),
    /// Look up what is kept of the minute of the symbol, under the symbol in upper case.
    LookUp { symbol: String, stored_symbol: String, ts_bucket: i64 },
}

/// The member of a document, where the document is an object and has it.
pub open spec fn member_of(payload_json: Seq<char>, key: Seq<char>) -> Option<JsonView> {
    match json::json_members(payload_json) {
        Some(object) => if object.contains_key(key) {
            Some(object[key])
        } else {
            None
        },
        None => None,
    }
}

/// Whether the document of a row is whole.
pub open spec fn is_whole_document(payload_json: Seq<char>) -> bool {
    member_of(payload_json, "indicators"@) matches Some(JsonView::Object(_))
}

/// The symbol of a row: its own, or the one that its document names.
pub open spec fn row_symbol(row: OutboxRow) -> Option<Seq<char>> {
    match row.symbol {
        Some(symbol) => Some(symbol@),
        None => match member_of(row.payload_json@, "symbol"@) {
            Some(JsonView::Text(symbol)) => Some(symbol),
            _ => None,
        },
    }
}

/// The minute of a row: its own, or the one that its document names.
pub open spec fn row_minute(row: OutboxRow) -> Option<i64> {
    match row.ts_bucket {
        Some(ts) => Some(ts),
        None => match member_of(row.payload_json@, "ts_bucket"@) {
            Some(JsonView::Text(date)) => clock::rfc3339_instant(date),
            _ => None,
        },
    }
}

fn document_member(object: &Option<serde_json::Map<String, serde_json::Value>>, key: &str) -> (out:
    Option<Json>)
    ensures
        *object is None ==> out is None,
        *object matches Some(o) ==> (out is Some) == json::members(o).contains_key(key@),
        *object matches Some(o) ==> (out matches Some(value) ==> value@ == json::members(
            o,
        )[key@]),
{
    match object {
        None => None,
        Some(object) => member(object, key),
    }
}

/// What is to be done to send a row: its own document where that is whole, else what is
/// kept of its minute.
pub fn plan_payload(row: &OutboxRow) -> (out: Result<PayloadPlan, PayloadError>)
    ensures
        is_whole_document(row.payload_json@) ==> {
            let raw = vstd::utf8::encode_utf8(
                json::object_text(json::json_members(row.payload_json@)->0),
            );
            match out {
                Ok(PayloadPlan::Ready(payload)) => is_packed(Ok(payload), raw),
                Ok(_) => false,
                Err(e) => is_packed(Err(e), raw),
            }
        },
        !is_whole_document(row.payload_json@) ==> match (row_symbol(*row), row_minute(*row)) {
            (None, _) => out == Err::<PayloadPlan, PayloadError>(PayloadError::MissingSymbol),
            (Some(_), None) => out == Err::<PayloadPlan, PayloadError>(
                PayloadError::MissingTsBucket,
            ),
            (Some(symbol), Some(ts)) => (out matches Ok(
                PayloadPlan::LookUp { symbol: s, stored_symbol: u, ts_bucket: t },
            ) && s@ == symbol && u@ == text::uppercase(symbol) && t == ts),
        },
{
    let object = parse_object(&row.payload_json);
    let whole: bool = match document_member(&object, "indicators") {
        Some(Json::Object(_)) => true,
        _ => false,
    };
    assert(whole == is_whole_document(row.payload_json@));
    if whole {
        if let Some(object) = object {
            let raw: String = text_of_object(&object);
            return match packed_payload(gzip(raw.as_str().as_bytes())) {
                Ok(payload) => Ok(PayloadPlan::Ready(payload)),
                Err(e) => Err(e),
            };
        }
    }
    let symbol: String = match &row.symbol {
        Some(symbol) => symbol.clone(),
        None => match document_member(&object, "symbol") {
            Some(Json::Text(symbol)) => symbol,
            _ => {
                return Err(PayloadError::MissingSymbol);
            },
        },
    };
    let minute: Option<i64> = match row.ts_bucket {
        Some(ts) => Some(ts),
        None => match document_member(&object, "ts_bucket") {
            Some(Json::Text(date)) => parse_rfc3339(&date),
            _ => None,
        },
    };
    match minute {
        None => Err(PayloadError::MissingTsBucket),
        Some(ts_bucket) => {
            let stored_symbol: String = to_uppercase(&symbol);
            Ok(PayloadPlan::LookUp { symbol, stored_symbol, ts_bucket })
        },
    }
}

/// A row that holds no more than the stub of a bundle is looked up under the symbol and the
/// minute that the bundle was made for.
pub proof fn law_stub_names_its_minute(
    publisher: IndPublisher,
    m: BundleOutboxMessage,
    ts_bucket: i64,
    symbol: Seq<char>,
    indicators: JsonView,
    indicator_count: usize,
    row: OutboxRow,
)
    requires
        publisher.is_bundle_message(m, ts_bucket, symbol, indicators, indicator_count),
        clock::has_four_digit_year(ts_bucket),
        row.payload_json@ == m.payload_json@,
        row.symbol is None,
        row.ts_bucket is None,
    ensures
        !is_whole_document(row.payload_json@),
        row_symbol(row) == Some(symbol),
        row_minute(row) == Some(ts_bucket),
{
    reveal_strlit("symbol");
    reveal_strlit("ts_bucket");
    reveal_strlit("window_code");
    reveal_strlit("indicator_count");
    reveal_strlit("msg_type");
    reveal_strlit("indicators");
    assert("symbol"@.len() == 6 && "ts_bucket"@.len() == 9 && "window_code"@.len() == 11);
    assert("indicator_count"@.len() == 15 && "msg_type"@.len() == 8 && "indicators"@.len() == 10);
}

/// The header fields of a message name the version of its layout, the service and the
/// instance that made it, and the encoding of its body, and nothing else.
pub proof fn law_header_fields(instance_id: Seq<char>, encoding: Seq<char>)
    ensures
        headers_of(publisher::header_members(instance_id)).insert(
            "content_encoding"@,
            HeaderView::Text(encoding),
        ) =~= no_fields().insert("schema_version"@, HeaderView::Text("1"@)).insert(
            "producer_service"@,
            HeaderView::Text("indicator_engine"@),
        ).insert("producer_instance_id"@, HeaderView::Text(instance_id)).insert(
            "content_encoding"@,
            HeaderView::Text(encoding),
        ),
{
    reveal_strlit("1");
    assert("1"@ =~= text::digits(1));
}

/// The payload of a packed document that was kept.
pub fn cached_payload(row: CachedBundlePayloadRow) -> (out: Result<PublishPayload, PayloadError>)
    ensures
        is_plain(row.payload_encoding@) || is_gzip(row.payload_encoding@) ==> {
            &&& out matches Ok(payload)
            &&& payload.body@ == row.payload_bytes@
            &&& encoding_name(payload.content_encoding) == if is_plain(row.payload_encoding@) {
                None::<Seq<char>>
            } else {
                Some("gzip"@)
            }
        },
        !is_plain(row.payload_encoding@) && !is_gzip(row.payload_encoding@) ==> (out matches Err(
            PayloadError::UnsupportedEncoding(name),
        ) && name@ == row.payload_encoding@),
{
    match normalize_payload_encoding(&row.payload_encoding) {
        Ok(content_encoding) => Ok(PublishPayload { body: row.payload_bytes, content_encoding }),
        Err(e) => Err(e),
    }
}

/// The entry of one indicator in a bundle.
pub open spec fn indicator_entry(row: IndicatorSnapshotRow) -> Option<JsonView> {
    match json::json_value(row.payload_json@) {
        None => None,
        Some(payload) => Some(
            JsonView::Object(
                json::object_text(
                    json::no_members().insert(
                        "window_code"@,
                        JsonView::Text(row.window_code@),
                    ).insert("payload"@, payload),
                ),
            ),
        ),
    }
}

/// The entries of the first `hi` snapshots: for each indicator the last one.
pub open spec fn bundle_entries(rows: Seq<IndicatorSnapshotRow>, hi: int) -> Map<
    Seq<char>,
    JsonView,
>
    decreases hi,
{
    if hi <= 0 {
        json::no_members()
    } else {
        bundle_entries(rows, hi - 1).insert(
            rows[hi - 1].indicator_code@,
            indicator_entry(rows[hi - 1])->0,
        )
    }
}

/// Whether the payload of every snapshot is JSON.
pub open spec fn all_json(rows: Seq<IndicatorSnapshotRow>) -> bool {
    forall|i: int| 0 <= i < rows.len() ==> indicator_entry(#[trigger] rows[i]) is Some
}

/// The indicators of a bundle: for each indicator its last snapshot. Nothing where a
/// payload is no JSON.
pub fn bundle_indicators(rows: &[IndicatorSnapshotRow]) -> (out: Option<
    serde_json::Map<String, serde_json::Value>,
>)
    ensures
        (out is Some) == all_json(rows@),
        out matches Some(object) ==> json::members(object) == bundle_entries(
            rows@,
            rows@.len() as int,
        ),
{
    let mut indicators = new_object();
    let mut i: usize = 0;
    while i < rows.len()
        invariant
            i <= rows@.len(),
            forall|j: int| 0 <= j < i ==> indicator_entry(#[trigger] rows@[j]) is Some,
            json::members(indicators) == bundle_entries(rows@, i as int),
        decreases rows@.len() - i,
    {
        let row: &IndicatorSnapshotRow = &rows[i];
        let mut entry = new_object();
        put_text(&mut entry, "window_code", &row.window_code);
        let read: bool = put_json(&mut entry, "payload", &row.payload_json);
        if !read {
            assert(indicator_entry(rows@[i as int]) is None);
            return None;
        }
        put_object(&mut indicators, &row.indicator_code, entry);
        i += 1;
    }
    Some(indicators)
}

/// How many indicators a rebuilt bundle says it holds: what the row says, or how many
/// snapshots there are, and never less than none.
pub open spec fn rebuilt_count(indicator_count: Option<i32>, rows: usize) -> usize {
    let count = match indicator_count {
        Some(count) => count,
        None => rows as i32,
    };
    if count < 0 {
        0
    } else {
        count as usize
    }
}

fn count_for(indicator_count: Option<i32>, rows: usize) -> (out: usize)
    ensures
        out == rebuilt_count(indicator_count, rows),
{
    let count: i32 = match indicator_count {
        Some(count) => count,
        None => #[verifier::truncate]
        (rows as i32),
    };
    if count < 0 {
        0
    } else {
        count as usize
    }
}

/// The payload of a bundle that is made again from the snapshots of its minute.
pub fn rebuilt_payload(
    publisher: &IndPublisher,
    symbol: &str,
    ts_bucket: i64,
    indicator_count: Option<i32>,
    rows: &[IndicatorSnapshotRow],
    published_at: &str,
) -> (out: Result<PublishPayload, PayloadError>)
    ensures
        rows@.len() == 0 <==> (out matches Err(e) && e is NoSnapshotRows),
        rows@.len() == 0 ==> (out matches Err(e) && misses_snapshots(e, symbol@, ts_bucket)),
        rows@.len() > 0 && !all_json(rows@) <==> out == Err::<PublishPayload, PayloadError>(
            PayloadError::NoJson,
        ),
        rows@.len() > 0 && all_json(rows@) && clock::rfc3339(ts_bucket) is None <==> out == Err::<
            PublishPayload,
            PayloadError,
        >(PayloadError::NoDate),
        rows@.len() > 0 && all_json(rows@) && clock::rfc3339(ts_bucket) is Some ==> is_packed(
            out,
            publisher.bundle_bytes(
                ts_bucket,
                symbol@,
                JsonView::Object(json::object_text(bundle_entries(rows@, rows@.len() as int))),
                rebuilt_count(indicator_count, rows@.len() as usize),
                published_at@,
            ),
        ),
{
    if rows.len() == 0 {
        return Err(PayloadError::NoSnapshotRows { symbol: symbol.to_owned(), ts_bucket });
    }
    let indicators = match bundle_indicators(rows) {
        Some(indicators) => indicators,
        None => {
            return Err(PayloadError::NoJson);
        },
    };
    let rebuilt: BundleOutboxMessage = match publisher.bundle_outbox_message_of(
        ts_bucket,
        symbol,
        indicators,
        count_for(indicator_count, rows.len()),
        published_at,
    ) {
        Ok(rebuilt) => rebuilt,
        Err(PublishError::NoDate) => {
            return Err(PayloadError::NoDate);
        },
        Err(PublishError::NoJson) => {
            return Err(PayloadError::NoJson);
        },
        Err(PublishError::NotPacked) => {
            return Err(PayloadError::NotPacked);
        },
    };
    proof {
        reveal_strlit("gzip");
        reveal_strlit("identity");
        lemma_gzip_is_gzip();
    }
    match normalize_payload_encoding(&rebuilt.payload_encoding) {
        Ok(content_encoding) => Ok(
            PublishPayload { body: rebuilt.payload_bytes, content_encoding },
        ),
        Err(e) => Err(e),
    }
}

proof fn lemma_gzip_is_gzip()
    ensures
        !is_plain("gzip"@),
        is_gzip("gzip"@),
{
    reveal_strlit("gzip");
    reveal_strlit("identity");
    let t = "gzip"@;
    assert(t[0] == 'g' && t.last() == 'p');
    assert(text::trimmed_start(t) == t);
    assert(text::trimmed_end(t) == t);
    assert(text::same_but_for_case(t, t));
}

/// What the broker made of a message.
#[derive(Clone, Debug, PartialEq, Eq)]
pub enum PublishOutcome {
    /// It took the message.
    Ack,
    /// It refused the message, and gave it back or not.
    Nack { returned: bool },
    /// It was not asked.
    NotRequested,
    /// The message could not be handed over.
    Failed(String),
}

/// Why a row could not be sent; nothing where it was.
pub open spec fn failure_text(outbox_id: i64, outcome: PublishOutcome) -> Option<Seq<char>> {
    match outcome {
        PublishOutcome::Ack => None,
        PublishOutcome::Nack { returned } => Some(
            "broker nack for outbox_id="@ + text::signed_digits(outbox_id as int) + " returned="@
                + if returned {
                "true"@
            } else {
                "false"@
            },
        ),
        PublishOutcome::NotRequested => Some("publisher confirm not requested on channel"@),
        PublishOutcome::Failed(why) => Some(why@),
    }
}

/// Notes what the broker made of the message of a row: a row that was sent is added to
/// those to be deleted, and of any other the reason comes back.
pub fn record_outcome(sent_ids: &mut Vec<i64>, outbox_id: i64, outcome: &PublishOutcome) -> (out:
    Option<String>)
    ensures
        final(sent_ids)@ == if failure_text(outbox_id, *outcome) is None {
            old(sent_ids)@.push(outbox_id)
        } else {
            old(sent_ids)@
        },
        encoding_name(out) == failure_text(outbox_id, *outcome),
{
    match outcome {
        PublishOutcome::Ack => {
            sent_ids.push(outbox_id);
            None
        },
        PublishOutcome::Nack { returned } => {
            let mut why: String = "broker nack for outbox_id=".to_owned();
            why.append(&signed_decimal(outbox_id));
            why.append(" returned=");
            if *returned {
                why.append("true");
            } else {
                why.append("false");
            }
            Some(why)
        },
        PublishOutcome::NotRequested => Some(
            "publisher confirm not requested on channel".to_owned(),
        ),
        PublishOutcome::Failed(why) => Some(why.clone()),
    }
}

/// Whether to go on after a batch.
#[derive(Clone, Copy, Debug, PartialEq, Eq)]
pub enum DrainStep {
    /// Take another batch.
    Continue,
    /// Wait: there is nothing left, or something failed.
    Stop,
    /// Wait, though there may be more: this many batches are enough.
    StopAtCap,
}

/// Whether to go on after the batch of the given number, out of `cap` at most.
pub fn drain_step(batch_idx: usize, cap: usize, made_progress: bool) -> (out: DrainStep)
    requires
        batch_idx < cap,
    ensures
        out == if !made_progress {
            DrainStep::Stop
        } else if batch_idx + 1 == cap {
            DrainStep::StopAtCap
        } else {
            DrainStep::Continue
        },
{
    if !made_progress {
        DrainStep::Stop
    } else if batch_idx + 1 == cap {
        DrainStep::StopAtCap
    } else {
        DrainStep::Continue
    }
}

/// Whether to delete another batch of dead rows after the batch of the given number.
pub fn gc_goes_on(batch_idx: usize, rows_affected: u64) -> (out: bool)
    requires
        batch_idx < OUTBOX_GC_MAX_BATCHES_PER_ROUND,
    ensures
        out == (rows_affected >= OUTBOX_GC_BATCH_SIZE && batch_idx + 1
            < OUTBOX_GC_MAX_BATCHES_PER_ROUND),
{
    rows_affected >= OUTBOX_GC_BATCH_SIZE && batch_idx + 1 < OUTBOX_GC_MAX_BATCHES_PER_ROUND
}

/// Whether a batch was slow.
pub fn is_slow_batch(claim_ms: u128, total_ms: u128) -> (out: bool)
    ensures
        out == (claim_ms >= 1_000 || total_ms >= 2_000),
{
    claim_ms >= OUTBOX_CLAIM_WARN_MS || total_ms >= OUTBOX_DISPATCH_WARN_MS
}

/// A payload without an encoding reads as its body, a packed one as what was packed, and one
/// of any other encoding as nothing.
pub proof fn law_reading(body: Seq<u8>, encoding: Option<Seq<char>>)
    ensures
        encoding is None ==> reads_as(body, encoding) == Some(body),
        encoding == Some("gzip"@) ==> reads_as(body, encoding) == packing::unpacked(body),
        encoding is Some && encoding->0 != "gzip"@ ==> reads_as(body, encoding) is None,
{
}

/// A bundle is stored plain under no name or under the name of identity, and packed under the
/// names of gzip, each with any white space around it and in any case.
pub proof fn law_encoding_names(encoding: Seq<char>)
    ensures
        is_plain(encoding) <==> text::trimmed(encoding) =~= Seq::empty() || text::same_but_for_case(
            text::trimmed(encoding),
            "identity"@,
        ),
        is_gzip(encoding) <==> text::same_but_for_case(text::trimmed(encoding), "gzip"@)
            || text::same_but_for_case(text::trimmed(encoding), "x-gzip"@),
        is_plain(""@) && is_plain("identity"@) && !is_plain("gzip"@),
        is_gzip("gzip"@) && is_gzip("x-gzip"@) && !is_gzip("identity"@) && !is_gzip(""@),
{
    reveal_strlit("");
    reveal_strlit("identity");
    reveal_strlit("gzip");
    reveal_strlit("x-gzip");
    let cut = text::law_trimmed(""@);
    lemma_trims_to_itself("identity"@);
    lemma_trims_to_itself("gzip"@);
    lemma_trims_to_itself("x-gzip"@);
}

proof fn lemma_trims_to_itself(t: Seq<char>)
    requires
        t.len() > 0,
        !text::is_white(t[0]),
        !text::is_white(t.last()),
    ensures
        text::trimmed(t) == t,
{
    let cut = text::law_trimmed(t);
    assert(cut.0 == 0) by {
        if cut.0 > 0 {
            assert(text::is_white(t[0]));
        }
    }
    assert(cut.1 == t.len()) by {
        if cut.1 < t.len() {
            assert(text::is_white(t[t.len() - 1]));
        }
    }
    assert(t.subrange(0, t.len() as int) =~= t);
}

/// A header is a flag exactly where it stands for a truth value; a text stands for itself, and
/// nothing for an empty text.
pub proof fn law_headers(value: JsonView, object: Map<Seq<char>, JsonView>, key: Seq<char>)
    ensures
        header_of(value) is Flag <==> value is Bool,
        value matches JsonView::Bool(b) ==> header_of(value) == HeaderView::Flag(b),
        value matches JsonView::Text(t) ==> header_of(value) == HeaderView::Text(t),
        value matches JsonView::Number(t) ==> header_of(value) == HeaderView::Text(t),
        value is Null ==> header_of(value) == HeaderView::Text(Seq::empty()),
        headers_of(object).contains_key(key) <==> object.contains_key(key),
        object.contains_key(key) ==> headers_of(object)[key] == header_of(object[key]),
{
}

/// A row that names its symbol or its minute is of that one, whatever its document says; else
/// it is of the one that its document says, and of none where that says none.
pub proof fn law_row_subject(row: OutboxRow)
    ensures
        row.symbol matches Some(symbol) ==> row_symbol(row) == Some(symbol@),
        row.ts_bucket is Some ==> row_minute(row) == row.ts_bucket,
        row.symbol is None ==> (row_symbol(row) matches Some(symbol) ==> member_of(
            row.payload_json@,
            "symbol"@,
        ) == Some(JsonView::Text(symbol))),
        row.symbol is None ==> (row_symbol(row) is Some <==> (member_of(
            row.payload_json@,
            "symbol"@,
        ) matches Some(JsonView::Text(symbol)))),
        row.ts_bucket is None ==> (row_minute(row) is Some <==> (member_of(
            row.payload_json@,
            "ts_bucket"@,
        ) matches Some(JsonView::Text(date)) && clock::rfc3339_instant(date) is Some)),
        row.ts_bucket is None && row_minute(row) is Some ==> row_minute(row)
            == clock::rfc3339_instant(member_of(row.payload_json@, "ts_bucket"@)->0->Text_0),
{
}

/// A rebuilt bundle has an entry under the code of each of its rows, that of the last row with
/// the code, and no other entry.
pub proof fn law_bundle_entries(rows: Seq<IndicatorSnapshotRow>, hi: int, key: Seq<char>)
    requires
        0 <= hi <= rows.len(),
    ensures
        bundle_entries(rows, hi).contains_key(key) <==> exists|i: int|
            0 <= i < hi && (#[trigger] rows[i]).indicator_code@ == key,
        forall|i: int|
            0 <= i < hi && (#[trigger] rows[i]).indicator_code@ == key && is_last_with(rows, hi, i)
                ==> bundle_entries(rows, hi)[key] == indicator_entry(rows[i])->0,
    decreases hi,
{
    if hi > 0 {
        law_bundle_entries(rows, hi - 1, key);
        assert forall|i: int|
            0 <= i < hi && (#[trigger] rows[i]).indicator_code@ == key && is_last_with(
                rows,
                hi,
                i,
            ) implies bundle_entries(rows, hi)[key] == indicator_entry(rows[i])->0 by {
            if i < hi - 1 {
                assert(rows[hi - 1].indicator_code@ != key);
                assert(is_last_with(rows, hi - 1, i));
            }
        }
    }
}

/// Whether no later row up to `hi` has the code of a row.
pub open spec fn is_last_with(rows: Seq<IndicatorSnapshotRow>, hi: int, i: int) -> bool {
    forall|j: int|
        i < j < hi ==> (#[trigger] rows[j]).indicator_code@ != rows[i].indicator_code@
}

/// An entry of a rebuilt bundle tells the window of its row and what the row holds.
pub proof fn law_indicator_entry(row: IndicatorSnapshotRow)
    ensures
        indicator_entry(row) is Some <==> json::json_value(row.payload_json@) is Some,
        indicator_entry(row) is Some ==> exists|members: Map<Seq<char>, JsonView>|
            {
                &&& indicator_entry(row) == Some(
                    JsonView::Object(#[trigger] json::object_text(members)),
                )
                &&& members["window_code"@] == JsonView::Text(row.window_code@)
                &&& Some(members["payload"@]) == json::json_value(row.payload_json@)
                &&& members.dom() =~= set!["window_code"@, "payload"@]
            },
{
    reveal_strlit("window_code");
    reveal_strlit("payload");
    if let Some(payload) = json::json_value(row.payload_json@) {
        assert("window_code"@.len() == 11 && "payload"@.len() == 7);
        let members = json::no_members().insert(
            "window_code"@,
            JsonView::Text(row.window_code@),
        ).insert("payload"@, payload);
        assert(indicator_entry(row) == Some(JsonView::Object(json::object_text(members))));
    }
}

/// A rebuilt bundle counts as many indicators as its row says, or else as it has rows, and
/// never fewer than none.
pub proof fn law_rebuilt_count(indicator_count: Option<i32>, rows: usize)
    ensures
        indicator_count matches Some(n) ==> n >= 0 ==> rebuilt_count(indicator_count, rows) == n,
        indicator_count matches Some(n) ==> n < 0 ==> rebuilt_count(indicator_count, rows) == 0,
        indicator_count is None && rows <= i32::MAX ==> rebuilt_count(indicator_count, rows) == rows,
{
}

/// A message fails exactly where the broker did not take it.
pub proof fn law_failures(outbox_id: i64, outcome: PublishOutcome)
    ensures
        failure_text(outbox_id, outcome) is None <==> outcome is Ack,
        outcome matches PublishOutcome::Failed(why) ==> failure_text(outbox_id, outcome) == Some(
            why@,
        ),
        outcome matches PublishOutcome::Nack { returned } ==> ({
            let head = "broker nack for outbox_id="@ + text::signed_digits(outbox_id as int)
                + " returned="@;
            failure_text(outbox_id, outcome) == Some(
                head + if returned {
                    "true"@
                } else {
                    "false"@
                },
            )
        }),
{
}

} // verus!
