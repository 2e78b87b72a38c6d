//! The fixed limits of the engine and the rules for names.
use vstd::prelude::*;

verus! {

/// The first sequence number of a fresh topic. `0` stands for "no records".
pub const SEQ_BASE: u64 = 1;

/// The most records one write may hold.
pub const MAX_BATCH_RECORDS: usize = 1000;

/// The longest idempotency key, in bytes.
pub const MAX_IDEMPOTENCY_KEY_LEN: usize = 256;

/// The longest tag, in bytes.
pub const MAX_TAG_BYTES: usize = 256;

/// The longest node name, in bytes.
pub const MAX_NODE_BYTES: usize = 128;

/// The largest `meta` of a record, in bytes of JSON text.
pub const MAX_META_BYTES: usize = 16384;

/// The most keys the `meta` object of a record may have.
pub const MAX_META_KEYS: usize = 64;

/// The largest record (data and meta), in bytes of JSON text.
pub const MAX_RECORD_BYTES: u64 = 1048576;

/// How many records a diff returns when the request does not say.
pub const DEFAULT_LIMIT: u64 = 500;

/// The most records one diff may return.
pub const MAX_LIMIT: u64 = 10000;

/// The byte budget of a diff when the request does not say.
pub const DEFAULT_MAX_BATCH_BYTES: u64 = 8388608;

/// The largest byte budget a diff may ask for.
pub const MAX_BATCH_BYTES: u64 = 67108864;

/// The largest page of a listing.
pub const MAX_PAGE_SIZE: usize = 1000;

/// How often a record is forwarded from topic to topic before it stops.
pub const MAX_ROUTER_HOPS: u8 = 8;

/// The most jobs one claim may take, and the most seqs one ack may name.
pub const MAX_CLAIM: u32 = 1000;

/// The shortest lease.
pub const MIN_LEASE_MS: u64 = 1000;

/// The longest lease.
pub const MAX_LEASE_MS: u64 = 43200000;

/// The longest delay of a nack.
pub const MAX_NACK_DELAY_MS: u64 = 43200000;

/// The longest name of a topic or a router, in characters.
pub const MAX_NAME_LEN: usize = 256;

/// The characters a topic name is made of.
pub open spec fn is_name_char(c: char) -> bool {
    ||| 'a' <= c <= 'z'
    ||| 'A' <= c <= 'Z'
    ||| '0' <= c <= '9'
    ||| c == '-'
    ||| c == '_'
    ||| c == '.'
    ||| c == ':'
    ||| c == '/'
    ||| c == '$'
}

/// A valid topic name: neither empty nor too long, and made of name characters.
pub open spec fn valid_name(s: Seq<char>) -> bool {
    &&& 0 < s.len() <= MAX_NAME_LEN
    &&& forall|i: int| 0 <= i < s.len() ==> is_name_char(#[trigger] s[i])
}

/// A valid router name: as a topic name, with `>` allowed for names such as
/// `source->dest`.
pub open spec fn valid_router_name(s: Seq<char>) -> bool {
    &&& 0 < s.len() <= MAX_NAME_LEN
    &&& forall|i: int| 0 <= i < s.len() ==> (is_name_char(#[trigger] s[i]) || s[i] == '>')
}

fn name_char(c: char) -> (r: bool)
    ensures
        r == is_name_char(c),
{
    ('a' <= c && c <= 'z') || ('A' <= c && c <= 'Z') || ('0' <= c && c <= '9') || c == '-' || c
        == '_' || c == '.' || c == ':' || c == '/' || c == '$'
}

/// Whether `s` is a valid topic name.
pub fn is_valid_name(s: &str) -> (r: bool)
    ensures
        r == valid_name(s@),
{
    let n: usize = s.unicode_len();
    if n == 0 || n > MAX_NAME_LEN {
        return false;
    }
    let mut i: usize = 0;
    while i < n
        invariant
            n == s@.len(),
            i <= n,
            forall|j: int| 0 <= j < i ==> is_name_char(#[trigger] s@[j]),
        decreases n - i,
    {
        let c = s.get_char(i);
        if !name_char(c) {
            assert(!is_name_char(s@[i as int]));
            return false;
        }
        i += 1;
    }
    true
}

/// Whether `s` is a valid router name.
pub fn is_valid_router_name(s: &str) -> (r: bool)
    ensures
        r == valid_router_name(s@),
{
    let n: usize = s.unicode_len();
    if n == 0 || n > MAX_NAME_LEN {
        return false;
    }
    let mut i: usize = 0;
    while i < n
        invariant
            n == s@.len(),
            i <= n,
            forall|j: int| 0 <= j < i ==> (is_name_char(#[trigger] s@[j]) || s@[j] == '>'),
        decreases n - i,
    {
        let c = s.get_char(i);
        if !name_char(c) && c != '>' {
            assert(!(is_name_char(s@[i as int]) || s@[i as int] == '>'));
            return false;
        }
        i += 1;
    }
    true
}

} // verus!
