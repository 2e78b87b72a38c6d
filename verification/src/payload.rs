//! JSON payloads, and the tokens that stand for a place in a listing.
use crate::text::text_eq;
use crate::types::{Error, ErrorCode, Json};
use base64::Engine as _;
use vstd::prelude::*;
use vstd::string::StringExecFns;

verus! {

/// The JSON value that a text spells, in compact form, with the number of its keys
/// where it is an object; nothing where the text is no JSON.
pub uninterp spec fn json_value(text: Seq<char>) -> Option<(Seq<char>, Option<usize>)>;

/// The member of an object that a text spells, in compact form, with the number of
/// its keys where it is an object; nothing where there is no such member.
pub uninterp spec fn json_member(text: Seq<char>, key: Seq<char>) -> Option<
    (Seq<char>, Option<usize>),
>;

/// The text behind the member of an object, where it is a string. Nothing where
/// the bytes are no JSON.
pub uninterp spec fn json_text_member(bytes: Seq<u8>, key: Seq<char>) -> Option<
    Option<Seq<char>>,
>;

/// An object with a string for one more member, in compact form, with the number
/// of its keys.
pub uninterp spec fn json_with_member(
    text: Seq<char>,
    key: Seq<char>,
    value: Seq<char>,
) -> (Seq<char>, usize);

/// The base64 text of bytes in the alphabet for URLs, with padding.
pub uninterp spec fn base64_text(bytes: Seq<u8>) -> Seq<char>;

/// The bytes of a base64 text in the alphabet for URLs with padding; nothing where it
/// is none.
pub uninterp spec fn base64_bytes(text: Seq<char>) -> Option<Seq<u8>>;

/// The parts of a JSON value.
pub open spec fn json_parts(j: Option<Json>) -> Option<(Seq<char>, Option<usize>)> {
    match j {
        Some(x) => Some((x.text@, x.keys)),
        None => None,
    }
}

/// A text that reading and writing leaves as it is.
pub open spec fn is_compact(text: Seq<char>) -> bool {
    json_value(text) is Some && json_value(text)->Some_0.0 == text
}

/// A text that spells an object.
pub open spec fn is_object(text: Seq<char>) -> bool {
    json_value(text) is Some && json_value(text)->Some_0.1 is Some
}

/// `serde_json::from_str`: reads a text as JSON. The value is handed on as the
/// compact text that `serde_json` writes for it, with `Map::len` of an object.
/// What the text of a value is remains with `serde_json`.
#[verifier::external_body]
fn serde_parse(text: &str) -> (r: Option<Json>)
    ensures
        json_parts(r) == json_value(text@),
{
    match serde_json::from_str::<serde_json::Value>(text) {
        Ok(v) => Some(Json { keys: v.as_object().map(|m| m.len()), text: v.to_string() }),
        Err(_) => None,
    }
}

/// `serde_json::Map::get` on the object that `serde_json::from_str` reads. The
/// member is handed on as in [`serde_parse`]. Of an object that holds compact
/// texts under `d` and `m`, and can be read, each member is the text that was put
/// there.
#[verifier::external_body]
fn serde_member(text: &str, key: &str) -> (r: Option<Json>)
    ensures
        json_parts(r) == json_member(text@, key@),
        forall|d: Seq<char>, m: Option<Seq<char>>|
            text@ == #[trigger] envelope(d, m) && is_compact(d) && (m is Some ==> is_compact(
                m->0,
            )) && json_value(text@) is Some ==> {
                &&& key@ == data_key() ==> r is Some && r->0.text@ == d && r->0.keys
                    == json_value(d)->Some_0.1
                &&& key@ == meta_key() ==> (r is Some <==> m is Some) && (m is Some ==> r->0.text@
                    == m->0 && r->0.keys == json_value(m->0)->Some_0.1)
            },
{
    match serde_json::from_str::<serde_json::Value>(text) {
        Ok(serde_json::Value::Object(o)) => o.get(key).map(
            |v| Json { keys: v.as_object().map(|m| m.len()), text: v.to_string() },
        ),
        _ => None,
    }
}

/// `serde_json::Value::get` and `as_str` on what `serde_json::from_slice` reads.
#[verifier::external_body]
fn serde_text_member(bytes: &[u8], key: &str) -> (r: Option<Option<String>>)
    ensures
        (match r {
            Some(Some(s)) => Some(Some(s@)),
            Some(None) => Some(None::<Seq<char>>),
            None => None,
        }) == json_text_member(bytes@, key@),
{
    match serde_json::from_slice::<serde_json::Value>(bytes) {
        Ok(v) => Some(v.get(key).and_then(|m| m.as_str()).map(|s| s.to_string())),
        Err(_) => None,
    }
}

/// `serde_json::Map::insert` of a string on the object that `serde_json::from_str`
/// reads; nothing where it reads none. `{}` is an object. The object is handed on as
/// in [`serde_parse`], and the string is read back from under its key.
#[verifier::external_body]
fn serde_insert(text: &str, key: &str, value: &str) -> (r: Option<Json>)
    ensures
        r is Some <==> is_object(text@),
        text@ == empty_object() ==> r is Some,
        r is Some ==> r->0.text@ == json_with_member(text@, key@, value@).0,
        r is Some ==> r->0.keys == Some(json_with_member(text@, key@, value@).1),
        r is Some ==> json_text_member(vstd::utf8::encode_utf8(r->0.text@), key@) == Some(
            Some(value@),
        ),
{
    match serde_json::from_str::<serde_json::Value>(text) {
        Ok(serde_json::Value::Object(mut o)) => {
            o.insert(key.to_string(), serde_json::Value::String(value.to_string()));
            let n = o.len();
            Some(Json { keys: Some(n), text: serde_json::Value::Object(o).to_string() })
        },
        _ => None,
    }
}

/// `base64::Engine::encode` of the engine with the alphabet for URLs. The length of
/// the text must fit the memory. Decoding gives the bytes back.
#[verifier::external_body]
fn base64_encode(bytes: &[u8]) -> (r: String)
    requires
        bytes@.len() <= MAX_TOKEN_BYTES,
    ensures
        r@ == base64_text(bytes@),
        base64_bytes(r@) == Some(bytes@),
{
    base64::engine::general_purpose::URL_SAFE.encode(bytes)
}

/// `base64::Engine::decode` of the engine with the alphabet for URLs.
#[verifier::external_body]
fn base64_decode(text: &str) -> (r: Option<Vec<u8>>)
    ensures
        (match r {
            Some(v) => Some(v@),
            None => None,
        }) == base64_bytes(text@),
{
    base64::engine::general_purpose::URL_SAFE.decode(text).ok()
}

/// The bytes before encoding of the largest token whose text a `String` can hold: it
/// has four bytes for every three, and at most half as many as there are addresses.
pub const MAX_TOKEN_BYTES: usize = usize::MAX / 8 * 3;

impl Json {
    /// The JSON value that a text spells.
    pub fn parse(text: &str) -> (r: Option<Json>)
        ensures
            json_parts(r) == json_value(text@),
    {
        serde_parse(text)
    }

    /// The text is that of a JSON value, in compact form, and the number of keys is
    /// that of the value. Such a value comes back from the log as it went in.
    pub open spec fn is_value(self) -> bool {
        json_value(self.text@) == Some((self.text@, self.keys))
    }

    /// Whether this is a JSON value, as a payload should be before it is written.
    pub fn check(&self) -> (r: bool)
        ensures
            r == self.is_value(),
    {
        match serde_parse(self.text.as_str()) {
            Some(v) => text_eq(v.text.as_str(), self.text.as_str()) && match (
                v.keys,
                self.keys,
            ) {
                (Some(a), Some(b)) => a == b,
                (None, None) => true,
                _ => false,
            },
            None => false,
        }
    }
}

/// The key under which an envelope holds the data.
pub open spec fn data_key() -> Seq<char> {
    seq!['d']
}

/// The key under which an envelope holds the meta.
pub open spec fn meta_key() -> Seq<char> {
    seq!['m']
}

/// The text that keeps data and meta together: `{"d":data,"m":meta}`, without the
/// second member where there is no meta.
pub open spec fn envelope(data: Seq<char>, meta: Option<Seq<char>>) -> Seq<char> {
    seq!['{', '"', 'd', '"', ':'] + data + (match meta {
        Some(m) => seq![',', '"', 'm', '"', ':'] + m,
        None => Seq::empty(),
    }) + seq!['}']
}

/// The compact text of a payload's meta.
pub open spec fn meta_text(meta: Option<Json>) -> Option<Seq<char>> {
    match meta {
        Some(m) => Some(m.text@),
        None => None,
    }
}

/// Writes data and meta into one text.
pub fn encode_record_payload(data: &Json, meta: &Option<Json>) -> (r: String)
    ensures
        r@ == envelope(data.text@, meta_text(*meta)),
{
    let open = "{\"d\":";
    let between = ",\"m\":";
    let close = "}";
    proof {
        reveal_strlit("{\"d\":");
        reveal_strlit(",\"m\":");
        reveal_strlit("}");
        assert(open@ =~= seq!['{', '"', 'd', '"', ':']);
        assert(between@ =~= seq![',', '"', 'm', '"', ':']);
        assert(close@ =~= seq!['}']);
    }
    let mut s = open.to_owned();
    s.append(data.text.as_str());
    match meta {
        Some(m) => {
            s.append(between);
            s.append(m.text.as_str());
        },
        None => {},
    }
    s.append(close);
    proof {
        assert(s@ =~= envelope(data.text@, meta_text(*meta)));
    }
    s
}

/// What an envelope holds, given how it reads: its members where it is an object.
/// Anything else holds nothing.
pub fn unwrap_record_payload(
    whole: Option<Json>,
    data: Option<Json>,
    meta: Option<Json>,
) -> (r: (Option<Json>, Option<Json>))
    ensures
        whole is Some && whole->0.keys is Some ==> r == (data, meta),
        !(whole is Some && whole->0.keys is Some) ==> r == (None::<Json>, None::<Json>),
{
    match whole {
        Some(w) => {
            if w.keys.is_some() {
                (data, meta)
            } else {
                (None, None)
            }
        },
        None => (None, None),
    }
}

/// What an envelope holds, given how it reads, where a text that is no envelope
/// counts as data.
pub fn unwrap_payload(
    whole: Option<Json>,
    data: Option<Json>,
    meta: Option<Json>,
) -> (r: (Option<Json>, Option<Json>))
    ensures
        whole is Some && whole->0.keys is Some ==> r == (data, meta),
        whole is Some && whole->0.keys is None ==> r == (whole, None::<Json>),
        whole is None ==> r == (None::<Json>, None::<Json>),
{
    match whole {
        Some(w) => {
            if w.keys.is_some() {
                (data, meta)
            } else {
                (Some(w), None)
            }
        },
        None => (None, None),
    }
}

/// What the envelope of a logged record holds.
pub open spec fn opened(blob: Seq<char>) -> (
    Option<(Seq<char>, Option<usize>)>,
    Option<(Seq<char>, Option<usize>)>,
) {
    if json_value(blob) is Some && json_value(blob)->Some_0.1 is Some {
        (json_member(blob, data_key()), json_member(blob, meta_key()))
    } else {
        (None, None)
    }
}

/// Reads data and meta back from the text of a logged record.
pub fn decode_record_payload(blob: &str) -> (r: (Option<Json>, Option<Json>))
    ensures
        json_parts(r.0) == opened(blob@).0,
        json_parts(r.1) == opened(blob@).1,
        forall|d: Seq<char>, m: Option<Seq<char>>|
            blob@ == #[trigger] envelope(d, m) && is_compact(d) && (m is Some ==> is_compact(
                m->0,
            )) && json_value(blob@) is Some && json_value(blob@)->Some_0.1 is Some ==> {
                &&& r.0 is Some
                &&& r.0->0.text@ == d
                &&& meta_text(r.1) == m
            },
{
    let (d, m) = keys();
    unwrap_record_payload(serde_parse(blob), serde_member(blob, d), serde_member(blob, m))
}

/// Reads data and meta back from the text of a segment record.
pub fn decode_payload(blob: &str) -> (r: (Option<Json>, Option<Json>))
    ensures
        ({
            let whole = json_value(blob@);
            if whole is Some && whole->Some_0.1 is None {
                json_parts(r.0) == whole && r.1 is None
            } else {
                json_parts(r.0) == opened(blob@).0 && json_parts(r.1) == opened(blob@).1
            }
        }),
{
    let (d, m) = keys();
    unwrap_payload(serde_parse(blob), serde_member(blob, d), serde_member(blob, m))
}

fn keys() -> (r: (&'static str, &'static str))
    ensures
        r.0@ == data_key(),
        r.1@ == meta_key(),
{
    let d = "d";
    let m = "m";
    proof {
        reveal_strlit("d");
        reveal_strlit("m");
        assert(d@ =~= data_key());
        assert(m@ =~= meta_key());
    }
    (d, m)
}

/// The key of a list token.
pub open spec fn after_key() -> Seq<char> {
    seq!['a', 'f', 't', 'e', 'r']
}

/// The empty object.
pub open spec fn empty_object() -> Seq<char> {
    seq!['{', '}']
}

/// The token for the place after a name: the base64url text of `{"after":name}`.
pub open spec fn token(name: Seq<char>) -> Seq<char> {
    base64_text(
        vstd::utf8::encode_utf8(json_with_member(empty_object(), after_key(), name).0),
    )
}

/// A `String` can hold the token.
pub open spec fn token_fits(name: Seq<char>) -> bool {
    vstd::utf8::encode_utf8(json_with_member(empty_object(), after_key(), name).0).len()
        <= MAX_TOKEN_BYTES
}

/// The name that a token stands for. Nothing where the token is malformed.
pub open spec fn token_name(text: Seq<char>) -> Option<Option<Seq<char>>> {
    match base64_bytes(text) {
        Some(b) => json_text_member(b, after_key()),
        None => None,
    }
}

fn after_member() -> (r: &'static str)
    ensures
        r@ == after_key(),
{
    let a = "after";
    proof {
        reveal_strlit("after");
        assert(a@ =~= after_key());
    }
    a
}

/// The text of the empty object.
pub fn empty_object_text() -> (r: &'static str)
    ensures
        r@ == empty_object(),
{
    let o = "{}";
    proof {
        reveal_strlit("{}");
        assert(o@ =~= empty_object());
    }
    o
}

/// Writes the token for the place after a name. Only a name whose token no `String`
/// can hold has none.
pub fn encode_cursor(after: &str) -> (r: Option<String>)
    ensures
        r is Some <==> token_fits(after@),
        r is Some ==> r->0@ == token(after@) && token_name(r->0@) == Some(Some(after@)),
{
    let json = match serde_insert(empty_object_text(), after_member(), after) {
        Some(j) => j,
        None => {
            return None;
        },
    };
    let bytes = json.text.as_str().as_bytes();
    if bytes.len() > MAX_TOKEN_BYTES {
        return None;
    }
    Some(base64_encode(bytes))
}

/// Reads a token. No token, or an empty one, stands for the start of the list; a
/// malformed one is refused.
pub fn decode_cursor(cursor: Option<&str>) -> (r: Result<Option<String>, Error>)
    ensures
        match cursor {
            None => r == Ok::<Option<String>, Error>(None),
            Some(c) => if c@.len() == 0 {
                r == Ok::<Option<String>, Error>(None)
            } else {
                match token_name(c@) {
                    Some(n) => r is Ok && crate::types::text_of(r->Ok_0) == n,
                    None => {
                        &&& r is Err
                        &&& r->Err_0.code == ErrorCode::InvalidRequest
                        &&& r->Err_0.detail is Plain
                    },
                }
            },
        },
{
    let c = match cursor {
        Some(c) => c,
        None => {
            return Ok(None);
        },
    };
    if c.unicode_len() == 0 {
        return Ok(None);
    }
    let bytes = match base64_decode(c) {
        Some(b) => b,
        None => {
            return Err(Error::new(ErrorCode::InvalidRequest));
        },
    };
    match serde_text_member(bytes.as_slice(), after_member()) {
        Some(n) => Ok(n),
        None => Err(Error::new(ErrorCode::InvalidRequest)),
    }
}

/// An object with a string for one more member, where a text that spells no object
/// counts as the empty one.
pub open spec fn with_member(text: Seq<char>, key: Seq<char>, value: Seq<char>) -> (
    Seq<char>,
    usize,
) {
    if is_object(text) {
        json_with_member(text, key, value)
    } else {
        json_with_member(empty_object(), key, value)
    }
}

/// An object with a string for one more member. What is no object counts as the empty
/// one.
pub fn with_text_member(object: &Json, key: &str, value: &str) -> (r: Json)
    ensures
        r.text@ == with_member(object.text@, key@, value@).0,
        r.keys == Some(with_member(object.text@, key@, value@).1),
{
    match serde_insert(object.text.as_str(), key, value) {
        Some(j) => j,
        None => match serde_insert(empty_object_text(), key, value) {
            Some(j) => j,
            None => Json::null(),
        },
    }
}

/// The decimal digits of a number.
pub open spec fn decimal(n: nat) -> Seq<char>
    decreases n,
{
    if n < 10 {
        seq![digit(n)]
    } else {
        decimal(n / 10).push(digit(n % 10))
    }
}

/// The decimal digit of a number below ten.
pub open spec fn digit(n: nat) -> char {
    if n == 0 {
        '0'
    } else if n == 1 {
        '1'
    } else if n == 2 {
        '2'
    } else if n == 3 {
        '3'
    } else if n == 4 {
        '4'
    } else if n == 5 {
        '5'
    } else if n == 6 {
        '6'
    } else if n == 7 {
        '7'
    } else if n == 8 {
        '8'
    } else {
        '9'
    }
}

fn digit_text(n: u64) -> (r: &'static str)
    requires
        n < 10,
    ensures
        r@ == seq![digit(n as nat)],
{
    proof {
        reveal_strlit("0");
        reveal_strlit("1");
        reveal_strlit("2");
        reveal_strlit("3");
        reveal_strlit("4");
        reveal_strlit("5");
        reveal_strlit("6");
        reveal_strlit("7");
        reveal_strlit("8");
        reveal_strlit("9");
    }
    let s = if n == 0 {
        "0"
    } else if n == 1 {
        "1"
    } else if n == 2 {
        "2"
    } else if n == 3 {
        "3"
    } else if n == 4 {
        "4"
    } else if n == 5 {
        "5"
    } else if n == 6 {
        "6"
    } else if n == 7 {
        "7"
    } else if n == 8 {
        "8"
    } else {
        "9"
    };
    assert(s@ =~= seq![digit(n as nat)]);
    s
}

/// The decimal text of a number.
pub fn decimal_text(n: u64) -> (r: String)
    ensures
        r@ == decimal(n as nat),
    decreases n,
{
    if n < 10 {
        digit_text(n).to_owned()
    } else {
        let mut s = decimal_text(n / 10);
        s.append(digit_text(n % 10));
        assert(s@ =~= decimal((n / 10) as nat).push(digit((n % 10) as nat)));
        s
    }
}

} // verus!
