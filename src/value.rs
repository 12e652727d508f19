//! Bolt values: the executable types and their mathematical model.
use vstd::prelude::*;
use vstd::string::StringExecFns;

verus! {

/// PackStream structure tags of the graph, temporal and spatial types.
pub const TAG_NODE: u8 = 0x4E;
pub const TAG_RELATIONSHIP: u8 = 0x52;
pub const TAG_UNBOUND_RELATIONSHIP: u8 = 0x72;
pub const TAG_PATH: u8 = 0x50;
pub const TAG_DATE: u8 = 0x44;
pub const TAG_TIME: u8 = 0x54;
pub const TAG_LOCAL_TIME: u8 = 0x74;
pub const TAG_DATE_TIME: u8 = 0x49;
pub const TAG_DATE_TIME_ZONE_ID: u8 = 0x69;
pub const TAG_LOCAL_DATE_TIME: u8 = 0x64;
pub const TAG_DURATION: u8 = 0x45;
pub const TAG_POINT_2D: u8 = 0x58;
pub const TAG_POINT_3D: u8 = 0x59;

/// A value of the Bolt protocol, one variant per PackStream type.
///
/// A float is held as its IEEE-754 binary64 bit pattern, which is exactly
/// what travels on the wire.
#[derive(Debug, PartialEq)]
pub enum BoltValue {
    Null,
    Boolean(bool),
    Integer(i64),
    Float(u64),
    String(String),
    Bytes(Vec<u8>),
    List(Vec<BoltValue>),
    Dict(BoltDict),
    Node(BoltNode),
    Relationship(BoltRelationship),
    UnboundRelationship(BoltUnboundRelationship),
    Path(BoltPath),
    Date(BoltDate),
    Time(BoltTime),
    LocalTime(BoltLocalTime),
    DateTime(BoltDateTime),
    DateTimeZoneId(BoltDateTimeZoneId),
    LocalDateTime(BoltLocalDateTime),
    Duration(BoltDuration),
    Point2D(BoltPoint2D),
    Point3D(BoltPoint3D),
}

/// A dictionary with string keys, kept in insertion order.
#[derive(Debug, PartialEq)]
pub struct BoltDict {
    pub entries: Vec<(String, BoltValue)>,
}

#[derive(Debug, PartialEq)]
pub struct BoltNode {
    pub id: i64,
    pub labels: Vec<String>,
    pub properties: BoltDict,
    pub element_id: String,
}

#[derive(Debug, PartialEq)]
pub struct BoltRelationship {
    pub id: i64,
    pub start_node_id: i64,
    pub end_node_id: i64,
    pub rel_type: String,
    pub properties: BoltDict,
    pub element_id: String,
    pub start_element_id: String,
    pub end_element_id: String,
}

#[derive(Debug, PartialEq)]
pub struct BoltUnboundRelationship {
    pub id: i64,
    pub rel_type: String,
    pub properties: BoltDict,
    pub element_id: String,
}

#[derive(Debug, PartialEq)]
pub struct BoltPath {
    pub nodes: Vec<BoltNode>,
    pub rels: Vec<BoltUnboundRelationship>,
    pub indices: Vec<i64>,
}

/// Days since 1970-01-01.
#[derive(Debug, Clone, PartialEq)]
pub struct BoltDate {
    pub days: i64,
}

#[derive(Debug, Clone, PartialEq)]
pub struct BoltTime {
    /// Nanoseconds since midnight.
    pub nanoseconds: i64,
    pub tz_offset_seconds: i64,
}

#[derive(Debug, Clone, PartialEq)]
pub struct BoltLocalTime {
    /// Nanoseconds since midnight.
    pub nanoseconds: i64,
}

#[derive(Debug, Clone, PartialEq)]
pub struct BoltDateTime {
    /// Seconds since the Unix epoch.
    pub seconds: i64,
    /// Nanoseconds within the second.
    pub nanoseconds: i64,
    pub tz_offset_seconds: i64,
}

#[derive(Debug, Clone, PartialEq)]
pub struct BoltDateTimeZoneId {
    pub seconds: i64,
    pub nanoseconds: i64,
    /// IANA time zone identifier.
    pub tz_id: String,
}

#[derive(Debug, Clone, PartialEq)]
pub struct BoltLocalDateTime {
    pub seconds: i64,
    pub nanoseconds: i64,
}

#[derive(Debug, Clone, PartialEq)]
pub struct BoltDuration {
    pub months: i64,
    pub days: i64,
    pub seconds: i64,
    pub nanoseconds: i64,
}

/// A 2D point; coordinates are IEEE-754 binary64 bit patterns.
#[derive(Debug, Clone, PartialEq)]
pub struct BoltPoint2D {
    pub srid: i64,
    pub x: u64,
    pub y: u64,
}

/// A 3D point; coordinates are IEEE-754 binary64 bit patterns.
#[derive(Debug, Clone, PartialEq)]
pub struct BoltPoint3D {
    pub srid: i64,
    pub x: u64,
    pub y: u64,
    pub z: u64,
}

/// The mathematical model of a value: every structure (node, date, point,
/// ...) is its tag with the sequence of its fields, as PackStream sees it.
pub enum Value {
    Null,
    Bool(bool),
    Int(i64),
    Float(u64),
    Str(Seq<char>),
    Bytes(Seq<u8>),
    List(Seq<Value>),
    Dict(Seq<(Seq<char>, Value)>),
    Struct(u8, Seq<Value>),
}

pub open spec fn view_value(v: BoltValue) -> Value
    decreases v, 0nat,
{
    match v {
        BoltValue::Null => Value::Null,
        BoltValue::Boolean(b) => Value::Bool(b),
        BoltValue::Integer(i) => Value::Int(i),
        BoltValue::Float(f) => Value::Float(f),
        BoltValue::String(s) => Value::Str(s@),
        BoltValue::Bytes(b) => Value::Bytes(b@),
        BoltValue::List(items) => Value::List(view_items(items, items.len() as nat)),
        BoltValue::Dict(d) => Value::Dict(view_entries(d.entries, d.entries.len() as nat)),
        BoltValue::Node(n) => view_node(n),
        BoltValue::Relationship(r) => Value::Struct(
            TAG_RELATIONSHIP,
            seq![
                Value::Int(r.id),
                Value::Int(r.start_node_id),
                Value::Int(r.end_node_id),
                Value::Str(r.rel_type@),
                Value::Dict(view_entries(r.properties.entries, r.properties.entries.len() as nat)),
                Value::Str(r.element_id@),
                Value::Str(r.start_element_id@),
                Value::Str(r.end_element_id@),
            ],
        ),
        BoltValue::UnboundRelationship(r) => view_unbound(r),
        BoltValue::Path(p) => Value::Struct(
            TAG_PATH,
            seq![
                Value::List(view_nodes(p.nodes, p.nodes.len() as nat)),
                Value::List(view_unbounds(p.rels, p.rels.len() as nat)),
                Value::List(int_items(p.indices@)),
            ],
        ),
        BoltValue::Date(d) => Value::Struct(TAG_DATE, seq![Value::Int(d.days)]),
        BoltValue::Time(t) => Value::Struct(
            TAG_TIME,
            seq![Value::Int(t.nanoseconds), Value::Int(t.tz_offset_seconds)],
        ),
        BoltValue::LocalTime(t) => Value::Struct(TAG_LOCAL_TIME, seq![Value::Int(t.nanoseconds)]),
        BoltValue::DateTime(t) => Value::Struct(
            TAG_DATE_TIME,
            seq![Value::Int(t.seconds), Value::Int(t.nanoseconds), Value::Int(t.tz_offset_seconds)],
        ),
        BoltValue::DateTimeZoneId(t) => Value::Struct(
            TAG_DATE_TIME_ZONE_ID,
            seq![Value::Int(t.seconds), Value::Int(t.nanoseconds), Value::Str(t.tz_id@)],
        ),
        BoltValue::LocalDateTime(t) => Value::Struct(
            TAG_LOCAL_DATE_TIME,
            seq![Value::Int(t.seconds), Value::Int(t.nanoseconds)],
        ),
        BoltValue::Duration(d) => Value::Struct(
            TAG_DURATION,
            seq![
                Value::Int(d.months),
                Value::Int(d.days),
                Value::Int(d.seconds),
                Value::Int(d.nanoseconds),
            ],
        ),
        BoltValue::Point2D(p) => Value::Struct(
            TAG_POINT_2D,
            seq![Value::Int(p.srid), Value::Float(p.x), Value::Float(p.y)],
        ),
        BoltValue::Point3D(p) => Value::Struct(
            TAG_POINT_3D,
            seq![Value::Int(p.srid), Value::Float(p.x), Value::Float(p.y), Value::Float(p.z)],
        ),
    }
}

/// The model of the first `n` items of a list.
pub open spec fn view_items(s: Vec<BoltValue>, n: nat) -> Seq<Value>
    decreases s, n,
{
    if n == 0 || n > s.len() {
        Seq::empty()
    } else {
        view_items(s, (n - 1) as nat).push(view_value(s[n - 1]))
    }
}

/// The model of the first `n` entries of a dictionary.
pub open spec fn view_entries(s: Vec<(String, BoltValue)>, n: nat) -> Seq<(Seq<char>, Value)>
    decreases s, n,
{
    if n == 0 || n > s.len() {
        Seq::empty()
    } else {
        view_entries(s, (n - 1) as nat).push((s[n - 1].0@, view_value(s[n - 1].1)))
    }
}

pub open spec fn view_node(n: BoltNode) -> Value
    decreases n, 0nat,
{
    Value::Struct(
        TAG_NODE,
        seq![
            Value::Int(n.id),
            Value::List(str_items(n.labels@)),
            Value::Dict(view_entries(n.properties.entries, n.properties.entries.len() as nat)),
            Value::Str(n.element_id@),
        ],
    )
}

pub open spec fn view_unbound(r: BoltUnboundRelationship) -> Value
    decreases r, 0nat,
{
    Value::Struct(
        TAG_UNBOUND_RELATIONSHIP,
        seq![
            Value::Int(r.id),
            Value::Str(r.rel_type@),
            Value::Dict(view_entries(r.properties.entries, r.properties.entries.len() as nat)),
            Value::Str(r.element_id@),
        ],
    )
}

/// The model of the first `n` nodes of a path.
pub open spec fn view_nodes(s: Vec<BoltNode>, n: nat) -> Seq<Value>
    decreases s, n,
{
    if n == 0 || n > s.len() {
        Seq::empty()
    } else {
        view_nodes(s, (n - 1) as nat).push(view_node(s[n - 1]))
    }
}

/// The model of the first `n` relationships of a path.
pub open spec fn view_unbounds(s: Vec<BoltUnboundRelationship>, n: nat) -> Seq<Value>
    decreases s, n,
{
    if n == 0 || n > s.len() {
        Seq::empty()
    } else {
        view_unbounds(s, (n - 1) as nat).push(view_unbound(s[n - 1]))
    }
}

pub open spec fn str_items(s: Seq<String>) -> Seq<Value> {
    Seq::new(s.len(), |i: int| Value::Str(s[i]@))
}

pub open spec fn int_items(s: Seq<i64>) -> Seq<Value> {
    Seq::new(s.len(), |i: int| Value::Int(s[i]))
}

impl BoltValue {
    /// The text of a `String` value.
    pub fn as_str(&self) -> (r: Option<&str>)
        ensures
            self is String <==> r is Some,
            r is Some ==> r->Some_0@ == self->String_0@,
    {
        match self {
            BoltValue::String(s) => Some(s.as_str()),
            _ => None,
        }
    }

    /// The number of an `Integer` value.
    pub fn as_int(&self) -> (r: Option<i64>)
        ensures
            self is Integer <==> r is Some,
            r is Some ==> r->Some_0 == self->Integer_0,
    {
        match self {
            BoltValue::Integer(i) => Some(*i),
            _ => None,
        }
    }
}

impl From<bool> for BoltValue {
    fn from(b: bool) -> (r: BoltValue)
        ensures
            r == BoltValue::Boolean(b),
    {
        BoltValue::Boolean(b)
    }
}

impl vstd::std_specs::convert::FromSpecImpl<bool> for BoltValue {
    open spec fn obeys_from_spec() -> bool {
        true
    }

    open spec fn from_spec(b: bool) -> BoltValue {
        BoltValue::Boolean(b)
    }
}

impl From<i64> for BoltValue {
    fn from(i: i64) -> (r: BoltValue)
        ensures
            r == BoltValue::Integer(i),
    {
        BoltValue::Integer(i)
    }
}

impl vstd::std_specs::convert::FromSpecImpl<i64> for BoltValue {
    open spec fn obeys_from_spec() -> bool {
        true
    }

    open spec fn from_spec(i: i64) -> BoltValue {
        BoltValue::Integer(i)
    }
}

impl From<i32> for BoltValue {
    fn from(i: i32) -> (r: BoltValue)
        ensures
            r == BoltValue::Integer(i as i64),
    {
        BoltValue::Integer(i as i64)
    }
}

impl vstd::std_specs::convert::FromSpecImpl<i32> for BoltValue {
    open spec fn obeys_from_spec() -> bool {
        true
    }

    open spec fn from_spec(i: i32) -> BoltValue {
        BoltValue::Integer(i as i64)
    }
}

impl From<String> for BoltValue {
    fn from(s: String) -> (r: BoltValue)
        ensures
            r == BoltValue::String(s),
    {
        BoltValue::String(s)
    }
}

impl vstd::std_specs::convert::FromSpecImpl<String> for BoltValue {
    open spec fn obeys_from_spec() -> bool {
        true
    }

    open spec fn from_spec(s: String) -> BoltValue {
        BoltValue::String(s)
    }
}

impl From<Vec<u8>> for BoltValue {
    fn from(b: Vec<u8>) -> (r: BoltValue)
        ensures
            r == BoltValue::Bytes(b),
    {
        BoltValue::Bytes(b)
    }
}

impl vstd::std_specs::convert::FromSpecImpl<Vec<u8>> for BoltValue {
    open spec fn obeys_from_spec() -> bool {
        true
    }

    open spec fn from_spec(b: Vec<u8>) -> BoltValue {
        BoltValue::Bytes(b)
    }
}

impl From<BoltDict> for BoltValue {
    fn from(d: BoltDict) -> (r: BoltValue)
        ensures
            r == BoltValue::Dict(d),
    {
        BoltValue::Dict(d)
    }
}

impl vstd::std_specs::convert::FromSpecImpl<BoltDict> for BoltValue {
    open spec fn obeys_from_spec() -> bool {
        true
    }

    open spec fn from_spec(d: BoltDict) -> BoltValue {
        BoltValue::Dict(d)
    }
}

impl From<BoltNode> for BoltValue {
    fn from(n: BoltNode) -> (r: BoltValue)
        ensures
            r == BoltValue::Node(n),
    {
        BoltValue::Node(n)
    }
}

impl vstd::std_specs::convert::FromSpecImpl<BoltNode> for BoltValue {
    open spec fn obeys_from_spec() -> bool {
        true
    }

    open spec fn from_spec(n: BoltNode) -> BoltValue {
        BoltValue::Node(n)
    }
}

impl View for BoltValue {
    type V = Value;

    open spec fn view(&self) -> Value {
        view_value(*self)
    }
}

impl View for BoltDict {
    type V = Seq<(Seq<char>, Value)>;

    open spec fn view(&self) -> Seq<(Seq<char>, Value)> {
        view_entries(self.entries, self.entries.len() as nat)
    }
}

/// The index of the first entry at or after `i` whose key is `k`.
pub open spec fn find_key(es: Seq<(Seq<char>, Value)>, k: Seq<char>, i: int) -> Option<int>
    decreases es.len() - i,
{
    if i < 0 || i >= es.len() {
        None
    } else if es[i].0 == k {
        Some(i)
    } else {
        find_key(es, k, i + 1)
    }
}

/// The value of the first entry with key `k`.
pub open spec fn lookup(es: Seq<(Seq<char>, Value)>, k: Seq<char>) -> Option<Value> {
    match find_key(es, k, 0) {
        Some(i) => Some(es[i].1),
        None => None,
    }
}

/// Storing `v` under `k`: the first entry with that key takes the new
/// value, or a new entry is appended.
pub open spec fn dict_insert(es: Seq<(Seq<char>, Value)>, k: Seq<char>, v: Value) -> Seq<(Seq<char>, Value)> {
    match find_key(es, k, 0) {
        Some(i) => es.update(i, (k, v)),
        None => es.push((k, v)),
    }
}

/// What `find_key` returns: the first match from `i` on, or none at all.
pub proof fn lemma_find_key(es: Seq<(Seq<char>, Value)>, k: Seq<char>, i: int)
    requires
        0 <= i <= es.len(),
    ensures
        match find_key(es, k, i) {
            Some(j) => i <= j < es.len() && es[j].0 == k && forall|m: int| i <= m < j ==> #[trigger] es[m].0 != k,
            None => forall|m: int| i <= m < es.len() ==> #[trigger] es[m].0 != k,
        },
    decreases es.len() - i,
{
    if i < es.len() {
        lemma_find_key(es, k, i + 1);
    }
}

/// No key occurs twice among the entries.
pub open spec fn keys_unique(entries: Seq<(Seq<char>, Value)>) -> bool {
    forall|i: int, j: int|
        0 <= i < j < entries.len() ==> #[trigger] entries[i].0 != #[trigger] entries[j].0
}

pub proof fn lemma_view_entries_len(s: Vec<(String, BoltValue)>, n: nat)
    requires
        n <= s.len(),
    ensures
        view_entries(s, n).len() == n,
        forall|i: int| 0 <= i < n ==> #[trigger] view_entries(s, n)[i] == (s[i].0@, view_value(s[i].1)),
    decreases n,
{
    if n > 0 {
        lemma_view_entries_len(s, (n - 1) as nat);
    }
}

pub proof fn lemma_view_items_len(s: Vec<BoltValue>, n: nat)
    requires
        n <= s.len(),
    ensures
        view_items(s, n).len() == n,
        forall|i: int| 0 <= i < n ==> #[trigger] view_items(s, n)[i] == view_value(s[i]),
    decreases n,
{
    if n > 0 {
        lemma_view_items_len(s, (n - 1) as nat);
    }
}

/// The model of a list holds one model per item, in order.
pub proof fn lemma_list_view(s: Vec<BoltValue>)
    ensures
        view_items(s, s.len() as nat).len() == s.len(),
        forall|i: int|
            0 <= i < s.len() ==> #[trigger] view_items(s, s.len() as nat)[i] == view_value(s[i]),
{
    lemma_view_items_len(s, s.len() as nat);
}

/// The model of a dictionary holds one entry model per entry, in order.
pub proof fn lemma_dict_view(d: BoltDict)
    ensures
        d@.len() == d.entries.len(),
        forall|i: int|
            0 <= i < d.entries.len() ==> #[trigger] d@[i] == (d.entries[i].0@, view_value(
                d.entries[i].1,
            )),
{
    lemma_view_entries_len(d.entries, d.entries.len() as nat);
}

impl BoltDict {
    /// An empty dictionary.
    pub fn new() -> (r: BoltDict)
        ensures
            r@ == Seq::<(Seq<char>, Value)>::empty(),
            r.entries@.len() == 0,
            keys_unique(r@),
    {
        BoltDict { entries: Vec::new() }
    }

    pub fn len(&self) -> (r: usize)
        ensures
            r == self@.len(),
    {
        proof {
            lemma_dict_view(*self);
        }
        self.entries.len()
    }

    /// The value stored under `key`, if any.
    pub fn get(&self, key: &str) -> (r: Option<&BoltValue>)
        ensures
            r is None <==> forall|i: int| 0 <= i < self@.len() ==> #[trigger] self@[i].0 != key@,
            r is Some ==> exists|i: int|
                0 <= i < self@.len() && #[trigger] self@[i].0 == key@ && self@[i].1 == r->Some_0@,
            match lookup(self@, key@) {
                Some(v) => r is Some && r->Some_0@ == v,
                None => r is None,
            },
    {
        proof {
            lemma_dict_view(*self);
            lemma_find_key(self@, key@, 0);
        }
        let mut i: usize = 0;
        while i < self.entries.len()
            invariant
                i <= self.entries.len(),
                self@.len() == self.entries.len(),
                forall|j: int|
                    0 <= j < self.entries.len() ==> #[trigger] self@[j] == (
                        self.entries[j].0@,
                        view_value(self.entries[j].1),
                    ),
                forall|j: int| 0 <= j < i ==> #[trigger] self@[j].0 != key@,
                find_key(self@, key@, 0) == find_key(self@, key@, i as int),
            decreases self.entries.len() - i,
        {
            if str_eq(self.entries[i].0.as_str(), key) {
                assert(self@[i as int].0 == key@);
                return Some(&self.entries[i].1);
            }
            i += 1;
        }
        None
    }
}

impl BoltDict {
    /// Stores `value` under `key`: replaces the value of an entry with that
    /// key, else appends a new entry.
    pub fn insert(&mut self, key: String, value: BoltValue)
        ensures
            (forall|i: int| 0 <= i < old(self)@.len() ==> #[trigger] old(self)@[i].0 != key@)
                ==> final(self)@ == old(self)@.push((key@, value@)),
            forall|i: int|
                0 <= i < old(self)@.len() && #[trigger] old(self)@[i].0 == key@ && (forall|j: int|
                    0 <= j < i ==> old(self)@[j].0 != key@) ==> final(self)@ == old(self)@.update(
                    i,
                    (key@, value@),
                ),
            final(self)@.len() == old(self)@.len() || final(self)@.len() == old(self)@.len() + 1,
            forall|i: int| 0 <= i < old(self)@.len() ==> #[trigger] final(self)@[i].0 == old(self)@[i].0,
            forall|i: int|
                0 <= i < old(self)@.len() && old(self)@[i].0 != key@ ==> #[trigger] final(self)@[i]
                    == old(self)@[i],
            final(self)@ == dict_insert(old(self)@, key@, value@),
            keys_unique(old(self)@) ==> keys_unique(final(self)@),
    {
        proof {
            lemma_dict_view(*self);
        }
        let mut i: usize = 0;
        while i < self.entries.len()
            invariant
                i <= self.entries.len(),
                self.entries == old(self).entries,
                self@ == old(self)@,
                self@.len() == self.entries.len(),
                forall|j: int|
                    0 <= j < self.entries.len() ==> #[trigger] self@[j] == (
                        self.entries[j].0@,
                        view_value(self.entries[j].1),
                    ),
                forall|j: int| 0 <= j < i ==> #[trigger] self@[j].0 != key@,
                find_key(old(self)@, key@, 0) == find_key(old(self)@, key@, i as int),
            decreases self.entries.len() - i,
        {
            if str_eq(self.entries[i].0.as_str(), key.as_str()) {
                assert(old(self)@[i as int].0 == key@);
                self.entries.set(i, (key, value));
                proof {
                    lemma_dict_view(*self);
                }
                assert(self@ =~= old(self)@.update(i as int, (key@, value@)));
                assert(keys_unique(old(self)@) ==> keys_unique(self@)) by {
                    if keys_unique(old(self)@) {
                        assert forall|a: int, b: int| 0 <= a < b < self@.len() implies #[trigger] self@[a].0 != #[trigger] self@[b].0 by {
                            assert(self@[a].0 == old(self)@[a].0 && self@[b].0 == old(self)@[b].0);
                        }
                    }
                }
                return;
            }
            i += 1;
        }
        self.entries.push((key, value));
        proof {
            lemma_dict_view(*self);
        }
        assert(self@ =~= old(self)@.push((key@, value@)));
        assert(keys_unique(old(self)@) ==> keys_unique(self@)) by {
            if keys_unique(old(self)@) {
                assert forall|a: int, b: int| 0 <= a < b < self@.len() implies #[trigger] self@[a].0 != #[trigger] self@[b].0 by {
                    if b == old(self)@.len() {
                        assert(self@[a] == old(self)@[a]);
                    } else {
                        assert(self@[a] == old(self)@[a] && self@[b] == old(self)@[b]);
                    }
                }
            }
        }
    }
}

/// The decimal digit character for `d` < 10.
pub open spec fn digit_char(d: nat) -> char {
    if d == 0 { '0' } else if d == 1 { '1' } else if d == 2 { '2' } else if d == 3 { '3' }
    else if d == 4 { '4' } else if d == 5 { '5' } else if d == 6 { '6' } else if d == 7 { '7' }
    else if d == 8 { '8' } else { '9' }
}

/// The decimal digits of `n`, most significant first.
pub open spec fn digits(n: nat) -> Seq<char>
    decreases n,
{
    if n < 10 {
        seq![digit_char(n)]
    } else {
        digits(n / 10).push(digit_char(n % 10))
    }
}

/// The decimal form of an integer, with a leading '-' when negative.
pub open spec fn decimal(i: int) -> Seq<char> {
    if i < 0 {
        seq!['-'] + digits((-i) as nat)
    } else {
        digits(i as nat)
    }
}

fn digit_str(d: u64) -> (r: &'static str)
    requires
        d < 10,
    ensures
        r@ == seq![digit_char(d as nat)],
{
    proof {
        reveal_strlit("0");
        reveal_strlit("1");
        reveal_strlit("2");
        reveal_strlit("3");
        reveal_strlit("4");
        reveal_strlit("5");
        reveal_strlit("6");
        reveal_strlit("7");
        reveal_strlit("8");
        reveal_strlit("9");
    }
    let r = if d == 0 { "0" } else if d == 1 { "1" } else if d == 2 { "2" } else if d == 3 { "3" }
    else if d == 4 { "4" } else if d == 5 { "5" } else if d == 6 { "6" } else if d == 7 { "7" }
    else if d == 8 { "8" } else { "9" };
    assert(r@ =~= seq![digit_char(d as nat)]);
    r
}

fn digits_string(n: u64) -> (r: String)
    ensures
        r@ == digits(n as nat),
    decreases n,
{
    if n < 10 {
        String::from_str(digit_str(n))
    } else {
        let mut s = digits_string(n / 10);
        s.append(digit_str(n % 10));
        assert(s@ =~= digits(n as nat));
        s
    }
}

/// The decimal form of `i`.
pub fn decimal_string(i: i64) -> (r: String)
    ensures
        r@ == decimal(i as int),
{
    if i < 0 {
        let magnitude: u64 = if i == i64::MIN { 0x8000_0000_0000_0000 } else { (-i) as u64 };
        let mut s = String::from_str("-");
        proof {
            reveal_strlit("-");
        }
        s.append(digits_string(magnitude).as_str());
        assert(s@ =~= decimal(i as int));
        s
    } else {
        digits_string(i as u64)
    }
}

/// Whether two strings hold the same characters, compared byte by byte.
pub fn str_eq(a: &str, b: &str) -> (r: bool)
    ensures
        r == (a@ == b@),
{
    let x = a.as_bytes();
    let y = b.as_bytes();
    proof {
        vstd::utf8::encode_utf8_decode_utf8(a@);
        vstd::utf8::encode_utf8_decode_utf8(b@);
    }
    if x.len() != y.len() {
        return false;
    }
    let mut i: usize = 0;
    while i < x.len()
        invariant
            i <= x.len(),
            x.len() == y.len(),
            x@ == vstd::utf8::encode_utf8(a@),
            y@ == vstd::utf8::encode_utf8(b@),
            forall|j: int| 0 <= j < i ==> x@[j] == y@[j],
        decreases x.len() - i,
    {
        if x[i] != y[i] {
            assert(x@[i as int] != y@[i as int]);
            return false;
        }
        i += 1;
    }
    assert(x@ =~= y@);
    true
}

} // verus!
