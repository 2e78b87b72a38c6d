use topics::engine::{Engine, Limits};
use topics::jobs::{lease_token_text, mark_dead_letter};
use topics::materialize::{resolve_payload, segment_blob};
use topics::payload::{
    decimal_text, decode_cursor, decode_payload, decode_record_payload, encode_cursor,
    encode_record_payload, unwrap_payload, unwrap_record_payload, with_text_member,
};
use topics::topic_index::StoredRecord;
use topics::types::{ErrorCode, Json};
use topics::write::{RecordIn, WriteRequest};

fn json(text: &str) -> Json {
    Json::parse(text).unwrap()
}

fn stored(data: Option<Json>, meta: Option<Json>, resident: bool) -> StoredRecord {
    StoredRecord {
        ts: 0,
        node: None,
        tag: None,
        data,
        meta,
        bytes: 0,
        deleted: false,
        payload_resident: resident,
        hops: 0,
    }
}

#[test]
fn a_text_is_read_in_compact_form() {
    let j = json(" { \"b\" : [ 1 , 2 ] , \"a\" : null } ");
    assert_eq!(j.text, "{\"a\":null,\"b\":[1,2]}");
    assert_eq!(j.keys, Some(2));
    assert_eq!(json("[1, 2]").keys, None);
    assert!(Json::parse("{").is_none());
}

#[test]
fn an_envelope_gives_back_what_it_holds() {
    let blob = encode_record_payload(&json("{\"k\":\"v\"}"), &Some(json("{\"m\":9}")));
    assert_eq!(blob, "{\"d\":{\"k\":\"v\"},\"m\":{\"m\":9}}");
    let (d, m) = decode_record_payload(&blob);
    assert_eq!(d.unwrap().text, "{\"k\":\"v\"}");
    assert_eq!(m.unwrap().text, "{\"m\":9}");

    let bare = encode_record_payload(&json("7"), &None);
    assert_eq!(bare, "{\"d\":7}");
    let (d, m) = decode_record_payload(&bare);
    assert_eq!(d.unwrap().text, "7");
    assert!(m.is_none());
}

#[test]
fn what_is_no_envelope_counts_as_data_in_a_segment_only() {
    let (d, m) = decode_payload("[1, 2]");
    assert_eq!(d.unwrap().text, "[1,2]");
    assert!(m.is_none());
    let (d, m) = decode_record_payload("[1, 2]");
    assert!(d.is_none() && m.is_none());
    let (d, m) = decode_payload("nonsense");
    assert!(d.is_none() && m.is_none());
}

#[test]
fn reading_an_envelope_follows_from_its_parts() {
    let (d, m) = unwrap_record_payload(Some(json("{}")), Some(json("1")), Some(json("2")));
    assert_eq!(d.unwrap().text, "1");
    assert_eq!(m.unwrap().text, "2");
    let (d, m) = unwrap_record_payload(Some(json("3")), Some(json("1")), None);
    assert!(d.is_none() && m.is_none());
    let (d, m) = unwrap_payload(Some(json("3")), Some(json("1")), Some(json("2")));
    assert_eq!(d.unwrap().text, "3");
    assert!(m.is_none());
}

#[test]
fn a_cursor_gives_its_name_back() {
    for name in ["a", "orders.v1", "\u{1f600}\"\\"] {
        let token = encode_cursor(name).unwrap();
        assert_ne!(token, name);
        assert_eq!(decode_cursor(Some(&token)).unwrap().unwrap(), name);
    }
    assert_eq!(encode_cursor("a").unwrap(), "eyJhZnRlciI6ImEifQ==");
    assert!(decode_cursor(None).unwrap().is_none());
}

#[test]
fn a_cursor_that_is_none_is_refused() {
    assert_eq!(decode_cursor(Some("***")).unwrap_err().code, ErrorCode::InvalidRequest);
    // `{` in base64: no JSON.
    assert_eq!(decode_cursor(Some("ew==")).unwrap_err().code, ErrorCode::InvalidRequest);
    // `{}` in base64: JSON without the member.
    assert!(decode_cursor(Some("e30=")).unwrap().is_none());
    assert!(decode_cursor(Some("")).unwrap().is_none());
}

#[test]
fn a_member_is_set_in_an_object() {
    let j = with_text_member(&json("{\"b\":1}"), "a", "x\"y");
    assert_eq!(j.text, "{\"a\":\"x\\\"y\",\"b\":1}");
    assert_eq!(j.keys, Some(2));
    let again = with_text_member(&j, "b", "z");
    assert_eq!(again.text, "{\"a\":\"x\\\"y\",\"b\":\"z\"}");
    assert_eq!(again.keys, Some(2));
}

#[test]
fn a_dead_letter_says_where_it_came_from() {
    let j = mark_dead_letter(&Some(json("{\"own\":true}")), "jobs", 3, 17);
    assert_eq!(
        j.text,
        "{\"$dead_letter_deliveries\":\"3\",\"$dead_letter_from\":\"jobs\",\
         \"$dead_letter_src_seq\":\"17\",\"own\":true}"
    );
    assert_eq!(j.keys, Some(4));
    let bare = mark_dead_letter(&None, "jobs", 3, 17);
    assert_eq!(bare.keys, Some(3));
}

#[test]
fn numbers_are_written_out() {
    assert_eq!(decimal_text(0), "0");
    assert_eq!(decimal_text(1009), "1009");
    assert_eq!(decimal_text(u64::MAX), "18446744073709551615");
    assert_eq!(lease_token_text(0), "lease_0");
    assert_eq!(lease_token_text(255), "lease_ff");
    assert_eq!(lease_token_text(u64::MAX), "lease_ffffffffffffffff");
}

#[test]
fn a_payload_comes_from_memory_or_from_its_segment() {
    let here = stored(Some(json("1")), Some(json("2")), true);
    let (d, m) = resolve_payload(&here, Some((json("8"), None)));
    assert_eq!(d.unwrap().text, "1");
    assert_eq!(m.unwrap().text, "2");
    let gone = stored(None, None, false);
    let (d, m) = resolve_payload(&gone, Some((json("8"), Some(json("9")))));
    assert_eq!(d.unwrap().text, "8");
    assert_eq!(m.unwrap().text, "9");
    let (d, m) = resolve_payload(&gone, None);
    assert!(d.is_none() && m.is_none());
    assert_eq!(segment_blob(&gone), "{\"d\":null}");
}

#[test]
fn a_payload_in_another_form_is_served_in_compact_form() {
    let mut engine =
        Engine::new(Limits { max_topics: 0, max_routers: 0, max_total_bytes: 0 });
    let r = RecordIn { data: json("[ 1 ]"), tag: None, node: None, meta: None };
    let req = WriteRequest {
        records: vec![r],
        node: None,
        idempotency_key: None,
        create: None,
        config: None,
    };
    engine.write("t", &req, true, 0).unwrap();
    assert_eq!(engine.get_box("t").unwrap().bytes(), 3);
}

#[test]
fn a_cursor_is_fit_for_a_url() {
    assert_eq!(encode_cursor("a??>").unwrap(), "eyJhZnRlciI6ImE_Pz4ifQ==");
    assert_eq!(decode_cursor(Some("eyJhZnRlciI6ImE_Pz4ifQ==")).unwrap().unwrap(), "a??>");
    let e = decode_cursor(Some("eyJhZnRlciI6ImE/Pz4ifQ==")).unwrap_err();
    assert_eq!(e.code, ErrorCode::InvalidRequest);
}

#[test]
fn a_long_name_has_a_cursor() {
    let name = "n".repeat(2 << 20);
    let token = encode_cursor(&name).unwrap();
    assert_eq!(decode_cursor(Some(&token)).unwrap().unwrap(), name);
}

#[test]
fn what_is_no_json_is_told_from_what_is() {
    assert!(json("{\"a\": [1, 2]}").check());
    assert!(json("7").check());
    assert!(!Json { text: "garbage".to_string(), keys: None }.check());
    assert!(!Json { text: "{}".to_string(), keys: None }.check());
    assert!(!Json { text: "[1, 2]".to_string(), keys: None }.check());
}
