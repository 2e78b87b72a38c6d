//! The values that requests, responses and stored state are made of.
use crate::text::{starts_with, text_eq, texts};
use vstd::prelude::*;

verus! {

/// The text of a JSON value in compact form, with the number of its keys where
/// the value is an object. `Json::parse` makes one; of one that was put together by
/// hand, `Json::check` says whether it is a value.
#[derive(Debug)]
pub struct Json {
    pub text: String,
    pub keys: Option<usize>,
}

impl Json {
    /// The JSON value `null`.
    pub open spec fn is_null(self) -> bool {
        &&& self.text@ == seq!['n', 'u', 'l', 'l']
        &&& self.keys == None::<usize>
    }

    /// The value `null`.
    pub fn null() -> (r: Json)
        ensures
            r.is_null(),
    {
        let s = "null";
        proof {
            reveal_strlit("null");
            assert(s@ =~= seq!['n', 'u', 'l', 'l']);
        }
        Json { text: s.to_owned(), keys: None }
    }

    /// An equal value.
    pub fn copy(&self) -> (r: Json)
        ensures
            r == *self,
    {
        Json { text: self.text.clone(), keys: self.keys }
    }

    /// The length of the text in bytes.
    pub open spec fn size(self) -> nat {
        vstd::utf8::encode_utf8(self.text@).len()
    }

    /// The length of the text in bytes.
    pub fn len(&self) -> (r: usize)
        ensures
            r == self.size(),
    {
        byte_len(self.text.as_str())
    }
}

/// The length of a text in bytes.
pub fn byte_len(s: &str) -> (r: usize)
    ensures
        r == vstd::utf8::encode_utf8(s@).len(),
{
    s.as_bytes().len()
}

/// An equal optional text.
pub fn copy_text(s: &Option<String>) -> (r: Option<String>)
    ensures
        r == *s,
{
    match s {
        Some(t) => Some(t.clone()),
        None => None,
    }
}

/// An equal optional JSON value.
pub fn copy_json(s: &Option<Json>) -> (r: Option<Json>)
    ensures
        r == *s,
{
    match s {
        Some(t) => Some(t.copy()),
        None => None,
    }
}

/// The text of an optional string.
pub open spec fn text_of(s: Option<String>) -> Option<Seq<char>> {
    match s {
        Some(t) => Some(t@),
        None => None,
    }
}

/// What a full topic does with a write.
#[derive(Debug, Clone, Copy, PartialEq, Eq, Structural)]
pub enum Discard {
    /// Old records make room for the new ones.
    Old,
    /// The write is refused.
    Reject,
}

/// How safely a record is kept before its write is acknowledged.
#[derive(Debug, Clone, Copy, PartialEq, Eq, Structural)]
pub enum Durability {
    /// Kept in memory alone.
    Memory,
    /// Logged, without waiting for the disk.
    Disk,
    /// Logged and flushed to the disk.
    Fsync,
}

/// What a topic is used as.
#[derive(Debug, Clone, Copy, PartialEq, Eq, Structural)]
pub enum TopicType {
    Log,
    Queue,
}

/// The settings of a topic. A zero cap, age or delivery limit means "none".
#[derive(Debug)]
pub struct TopicConfig {
    pub topic_type: TopicType,
    pub ttl_ms: u64,
    pub cap_records: u64,
    pub cap_bytes: u64,
    pub discard: Discard,
    pub durable: bool,
    pub durability: Option<Durability>,
    pub priority: Option<i64>,
    pub auto_priority: bool,
    pub auto_create: bool,
    pub idempotency_window_ms: u64,
    pub dedupe_node: bool,
    pub lease_ms: u64,
    pub max_deliveries: u64,
    pub dead_letter: Option<String>,
    pub leases_durable: bool,
    /// How long claims are gathered before jobs are dealt out to them together.
    pub claim_jitter_ms: u64,
}

/// The settings of a topic, under the name the box API uses.
pub type BoxConfig = TopicConfig;

/// The settings a topic has when nothing is said of it.
pub open spec fn default_config() -> TopicConfig {
    TopicConfig {
        topic_type: TopicType::Log,
        ttl_ms: 0,
        cap_records: 0,
        cap_bytes: 0,
        discard: Discard::Old,
        durable: false,
        durability: None,
        priority: None,
        auto_priority: true,
        auto_create: true,
        idempotency_window_ms: 120000,
        dedupe_node: true,
        lease_ms: 30000,
        max_deliveries: 0,
        dead_letter: None,
        leases_durable: false,
        claim_jitter_ms: 0,
    }
}

impl Default for TopicConfig {
    fn default() -> (r: TopicConfig)
        ensures
            r == default_config(),
    {
        TopicConfig {
            topic_type: TopicType::Log,
            ttl_ms: 0,
            cap_records: 0,
            cap_bytes: 0,
            discard: Discard::Old,
            durable: false,
            durability: None,
            priority: None,
            auto_priority: true,
            auto_create: true,
            idempotency_window_ms: 120000,
            dedupe_node: true,
            lease_ms: 30000,
            max_deliveries: 0,
            dead_letter: None,
            leases_durable: false,
            claim_jitter_ms: 0,
        }
    }
}

impl TopicConfig {
    /// The durability class: the one named, else `Fsync` for a durable topic and
    /// `Disk` for any other.
    pub open spec fn class(self) -> Durability {
        match self.durability {
            Some(d) => d,
            None => if self.durable {
                Durability::Fsync
            } else {
                Durability::Disk
            },
        }
    }

    /// The same settings with the class written out and `durable` made to agree.
    pub open spec fn normalized(self) -> TopicConfig {
        TopicConfig {
            durability: Some(self.class()),
            durable: self.class() == Durability::Fsync,
            ..self
        }
    }

    /// The durability class.
    pub fn durability_class(&self) -> (r: Durability)
        ensures
            r == self.class(),
    {
        match self.durability {
            Some(d) => d,
            None => if self.durable {
                Durability::Fsync
            } else {
                Durability::Disk
            },
        }
    }

    /// Writes the class out and makes `durable` agree with it.
    pub fn normalize_durability(&mut self)
        ensures
            *final(self) == old(self).normalized(),
    {
        let c = self.durability_class();
        self.durability = Some(c);
        self.durable = match c {
            Durability::Fsync => true,
            _ => false,
        };
    }

    /// Whether the topic is a queue.
    pub fn is_queue(&self) -> (r: bool)
        ensures
            r == (self.topic_type == TopicType::Queue),
    {
        match self.topic_type {
            TopicType::Queue => true,
            TopicType::Log => false,
        }
    }

    /// Whether records live in memory alone.
    pub fn is_memory(&self) -> (r: bool)
        ensures
            r == (self.class() == Durability::Memory),
    {
        match self.durability_class() {
            Durability::Memory => true,
            _ => false,
        }
    }

    /// Whether records are kept beyond memory.
    pub fn uses_persistent_record_store(&self) -> (r: bool)
        ensures
            r == (self.class() != Durability::Memory),
    {
        !self.is_memory()
    }

    /// Equal settings.
    pub fn copy(&self) -> (r: TopicConfig)
        ensures
            r == *self,
    {
        TopicConfig {
            topic_type: self.topic_type,
            ttl_ms: self.ttl_ms,
            cap_records: self.cap_records,
            cap_bytes: self.cap_bytes,
            discard: self.discard,
            durable: self.durable,
            durability: self.durability,
            priority: self.priority,
            auto_priority: self.auto_priority,
            auto_create: self.auto_create,
            idempotency_window_ms: self.idempotency_window_ms,
            dedupe_node: self.dedupe_node,
            lease_ms: self.lease_ms,
            max_deliveries: self.max_deliveries,
            dead_letter: copy_text(&self.dead_letter),
            leases_durable: self.leases_durable,
            claim_jitter_ms: self.claim_jitter_ms,
        }
    }
}

/// How a filter compares its value with a tag.
#[derive(Debug, Clone, Copy, PartialEq, Eq, Structural)]
pub enum FilterOp {
    /// The tag is the value.
    Eq,
    /// The tag begins with the value.
    Glob,
}

/// A selection of records by tag.
#[derive(Debug)]
pub struct Filter {
    pub op: FilterOp,
    pub value: String,
}

/// Whether a tag is selected.
pub open spec fn tag_matches(op: FilterOp, value: Seq<char>, tag: Seq<char>) -> bool {
    match op {
        FilterOp::Eq => tag == value,
        FilterOp::Glob => value.is_prefix_of(tag),
    }
}

impl Filter {
    /// Whether the filter selects a tag.
    pub open spec fn selects(self, tag: Seq<char>) -> bool {
        tag_matches(self.op, self.value@, tag)
    }

    /// Whether the filter selects `tag`.
    pub fn matches(&self, tag: &str) -> (r: bool)
        ensures
            r == self.selects(tag@),
    {
        match self.op {
            FilterOp::Eq => text_eq(tag, self.value.as_str()),
            FilterOp::Glob => starts_with(tag, self.value.as_str()),
        }
    }

    /// An equal filter.
    pub fn copy(&self) -> (r: Filter)
        ensures
            r == *self,
    {
        Filter { op: self.op, value: self.value.clone() }
    }

    /// The filter that a short form stands for: a trailing `*` asks for a prefix,
    /// anything else for the tag itself.
    pub fn from_shorthand(s: &str) -> (r: Filter)
        ensures
            s@.len() > 0 && s@.last() == '*' ==> r.op == FilterOp::Glob && r.value@
                == s@.drop_last(),
            !(s@.len() > 0 && s@.last() == '*') ==> r.op == FilterOp::Eq && r.value@ == s@,
    {
        let n: usize = s.unicode_len();
        if n > 0 && s.get_char(n - 1) == '*' {
            let p = s.substring_char(0, n - 1);
            assert(p@ =~= s@.drop_last());
            Filter { op: FilterOp::Glob, value: p.to_owned() }
        } else {
            Filter { op: FilterOp::Eq, value: s.to_owned() }
        }
    }
}

/// An equal optional filter.
pub fn copy_filter(f: &Option<Filter>) -> (r: Option<Filter>)
    ensures
        r == *f,
{
    match f {
        Some(x) => Some(x.copy()),
        None => None,
    }
}

/// The selection a log frame carries.
#[derive(Debug)]
pub enum MatchSel {
    Eq(String),
    Glob(String),
}

/// The nodes a reader stands for: it does not want their records back.
#[derive(Debug)]
pub enum NodeFilter {
    One(String),
    Many(Vec<String>),
}

impl NodeFilter {
    /// The reader stands for `node`.
    pub open spec fn covers(self, node: Seq<char>) -> bool {
        match self {
            NodeFilter::One(n) => n@ == node,
            NodeFilter::Many(v) => texts(v@).contains(node),
        }
    }

    /// Whether the reader stands for `node`.
    pub fn names(&self, node: &str) -> (r: bool)
        ensures
            r == self.covers(node@),
    {
        match self {
            NodeFilter::One(n) => text_eq(n.as_str(), node),
            NodeFilter::Many(v) => {
                let mut i: usize = 0;
                while i < v.len()
                    invariant
                        i <= v@.len(),
                        *self == NodeFilter::Many(*v),
                        forall|j: int| 0 <= j < i ==> (#[trigger] v@[j])@ != node@,
                    decreases v@.len() - i,
                {
                    if text_eq(v[i].as_str(), node) {
                        assert(texts(v@)[i as int] == node@);
                        assert(texts(v@).contains(node@));
                        return true;
                    }
                    i += 1;
                }
                proof {
                    if texts(v@).contains(node@) {
                        let j = choose|j: int| 0 <= j < texts(v@).len() && texts(v@)[j] == node@;
                        assert(v@[j]@ == node@);
                    }
                }
                false
            },
        }
    }
}

/// Why a reader finds a gap.
#[derive(Debug, Clone, Copy, PartialEq, Eq, Structural)]
pub enum TombstoneReason {
    /// Records were evicted to keep a cap.
    Cap,
    /// Records grew too old.
    Ttl,
    /// Both.
    Mixed,
    /// The source of a router was trimmed before it was forwarded.
    SourceTrim,
    /// The topic was deleted and created again.
    Recreated,
}

/// The report of a gap that was not asked for.
#[derive(Debug, Clone, Copy, PartialEq, Eq, Structural)]
pub struct Tombstone {
    pub gap_from: u64,
    pub gap_to: u64,
    pub reason: TombstoneReason,
    pub missed_estimate: u64,
    pub earliest_seq: u64,
    pub head_seq: u64,
}

/// What a request was refused for.
#[derive(Debug, Clone, Copy, PartialEq, Eq, Structural)]
pub enum ErrorCode {
    InvalidRequest,
    TopicNotFound,
    RouterNotFound,
    TopicExistsIncompatible,
    TopicNotEmpty,
    TopicFull,
    NotAQueue,
    BatchTooLarge,
    RecordTooLarge,
    RouterCycle,
    Throttled,
    Internal,
}

/// What a refusal says beyond its code.
#[derive(Debug)]
pub enum ErrorDetail {
    Plain,
    /// The path that a new router would close, from its source back to its source.
    Cycle(Vec<String>),
    /// The destination has a router from another source.
    FanIn,
    /// The limit that was reached.
    Limit(u64),
    /// The state of a full topic.
    Full { cap_records: u64, cap_bytes: u64, head_seq: u64, earliest_seq: u64 },
    /// How many records are left.
    Count(u64),
    /// How many items were named, and how many may be.
    Batch { given: u64, max: u64 },
    /// The type a topic has, and the one asked for.
    Type { existing: TopicType, requested: TopicType },
    /// The durability class a topic has, and the one asked for.
    Class { present: Durability, wanted: Durability },
}

/// A refused request.
#[derive(Debug)]
pub struct Error {
    pub code: ErrorCode,
    pub detail: ErrorDetail,
}

impl Error {
    /// A refusal with a code alone.
    pub fn new(code: ErrorCode) -> (r: Error)
        ensures
            r.code == code,
            r.detail == ErrorDetail::Plain,
    {
        Error { code, detail: ErrorDetail::Plain }
    }

    /// A refusal with a detail.
    pub fn with_detail(code: ErrorCode, detail: ErrorDetail) -> (r: Error)
        ensures
            r.code == code,
            r.detail == detail,
    {
        Error { code, detail }
    }
}

/// How often a router delivers a record.
#[derive(Debug, Clone, Copy, PartialEq, Eq, Structural)]
pub enum RouterGuarantee {
    AtLeastOnce,
    ExactlyOnce,
}

/// A router: it forwards what is written to `source` on to `dest`.
#[derive(Debug)]
pub struct Router {
    pub name: String,
    pub source: String,
    pub dest: String,
    pub preserve_node: bool,
    pub preserve_tag: bool,
    pub create_dest: bool,
    pub filter: Option<Filter>,
    pub allow_cycle: bool,
    pub guarantee: RouterGuarantee,
}

impl Router {
    /// An equal router.
    pub fn copy(&self) -> (r: Router)
        ensures
            r == *self,
    {
        Router {
            name: self.name.clone(),
            source: self.source.clone(),
            dest: self.dest.clone(),
            preserve_node: self.preserve_node,
            preserve_tag: self.preserve_tag,
            create_dest: self.create_dest,
            filter: copy_filter(&self.filter),
            allow_cycle: self.allow_cycle,
            guarantee: self.guarantee,
        }
    }
}

} // verus!
