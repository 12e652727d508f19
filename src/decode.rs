//! PackStream decoding: bytes to values. Every legal encoding is accepted,
//! not only the smallest one.
use vstd::bytes::*;
use vstd::prelude::*;
use vstd::utf8::encode_utf8;

use crate::error::{protocol_error, BoltError};
use crate::packstream::{
    bytes_header, enc, enc_entries, enc_int, enc_items, enc_str, encodable, encodable_entries,
    encodable_items, int_width, lemma_encodable_entries, lemma_encodable_items, size_header, twos,
    be16, be32, be64, BYTES_16, BYTES_32, BYTES_8, DICT_16, DICT_32, DICT_8, FALSE, FLOAT_64,
    INT_16, INT_32, INT_64, INT_8, LIST_16, LIST_32, LIST_8, NULL, STRING_16, STRING_32, STRING_8,
    TRUE, TINY_DICT, TINY_LIST, TINY_STRING, TINY_STRUCT,
};
use crate::value::{
    decimal, dict_insert, keys_unique, Value, BoltDate, BoltDateTime, BoltDateTimeZoneId, BoltDict, BoltDuration, BoltLocalDateTime,
    BoltLocalTime, BoltNode, BoltPath, BoltPoint2D, BoltPoint3D, BoltRelationship, BoltTime,
    BoltUnboundRelationship, BoltValue, TAG_DATE, TAG_DATE_TIME, TAG_DATE_TIME_ZONE_ID,
    TAG_DURATION, TAG_LOCAL_DATE_TIME, TAG_LOCAL_TIME, TAG_NODE, TAG_PATH, TAG_POINT_2D,
    TAG_POINT_3D, TAG_RELATIONSHIP, TAG_TIME, TAG_UNBOUND_RELATIONSHIP,
};

verus! {

pub const END_OF_DATA: &'static str = "unexpected end of data";
pub const INVALID_UTF8: &'static str = "invalid UTF-8";
pub const KEY_NOT_STRING: &'static str = "dict key must be string";

/// What a decoder may return on input `data` read from `pos`: a value and
/// the position after it, or a protocol error.
pub open spec fn decode_outcome(
    data: Seq<u8>,
    pos: int,
    r: Result<(BoltValue, usize), BoltError>,
) -> bool {
    match r {
        Ok((_, end)) => pos < end <= data.len(),
        Err(e) => e is Protocol,
    }
}

/// What decoding gives back: every dictionary has distinct keys, and every
/// structure is a known one with fields of the right kinds.
pub open spec fn sound(v: Value) -> bool
    decreases v, 0nat,
{
    match v {
        Value::List(items) => sound_items(items, items.len()),
        Value::Dict(entries) => keys_unique(entries) && sound_entries(entries, entries.len()),
        Value::Struct(tag, fields) => struct_shape(tag, fields) && sound_items(fields, fields.len()),
        _ => true,
    }
}

pub open spec fn sound_items(s: Seq<Value>, n: nat) -> bool
    decreases s, n,
{
    if n == 0 || n > s.len() {
        true
    } else {
        sound_items(s, (n - 1) as nat) && sound(s[n - 1])
    }
}

pub open spec fn sound_entries(s: Seq<(Seq<char>, Value)>, n: nat) -> bool
    decreases s, n,
{
    if n == 0 || n > s.len() {
        true
    } else {
        sound_entries(s, (n - 1) as nat) && sound(s[n - 1].1)
    }
}

/// `w` is well formed and its encoding stands in `d` from `p` on.
pub open spec fn encoded_at(d: Seq<u8>, p: int, w: Value) -> bool {
    &&& encodable(w)
    &&& sound(w)
    &&& 0 <= p
    &&& p + enc(w).len() <= d.len()
    &&& d.subrange(p, p + enc(w).len()) == enc(w)
}

/// The decoder returned `w`, and the position just after its encoding.
pub open spec fn decodes_to(r: Result<(BoltValue, usize), BoltError>, p: int, w: Value) -> bool {
    &&& r is Ok
    &&& r->Ok_0.0@ == w
    &&& r->Ok_0.1 == p + enc(w).len()
}

proof fn lemma_sound_items(s: Seq<Value>, n: nat, i: int)
    requires
        sound_items(s, n),
        n <= s.len(),
        0 <= i < n,
    ensures
        sound(s[i]),
    decreases n,
{
    if i < n - 1 {
        lemma_sound_items(s, (n - 1) as nat, i);
    }
}

proof fn lemma_sound_entries(s: Seq<(Seq<char>, Value)>, n: nat, i: int)
    requires
        sound_entries(s, n),
        n <= s.len(),
        0 <= i < n,
    ensures
        sound(s[i].1),
    decreases n,
{
    if i < n - 1 {
        lemma_sound_entries(s, (n - 1) as nat, i);
    }
}

proof fn lemma_be16_inj(a: u16, b: u16)
    requires
        be16(a) == be16(b),
    ensures
        a == b,
{
    lemma_auto_spec_u16_to_from_le_bytes();
    assert(spec_u16_to_le_bytes(a) =~= spec_u16_to_le_bytes(b)) by {
        assert(be16(a)[0] == be16(b)[0]);
        assert(be16(a)[1] == be16(b)[1]);
    }
}

proof fn lemma_be32_inj(a: u32, b: u32)
    requires
        be32(a) == be32(b),
    ensures
        a == b,
{
    lemma_auto_spec_u32_to_from_le_bytes();
    assert(spec_u32_to_le_bytes(a) =~= spec_u32_to_le_bytes(b)) by {
        assert(be32(a)[0] == be32(b)[0]);
        assert(be32(a)[1] == be32(b)[1]);
        assert(be32(a)[2] == be32(b)[2]);
        assert(be32(a)[3] == be32(b)[3]);
    }
}

proof fn lemma_be64_inj(a: u64, b: u64)
    requires
        be64(a) == be64(b),
    ensures
        a == b,
{
    lemma_auto_spec_u64_to_from_le_bytes();
    assert(spec_u64_to_le_bytes(a) =~= spec_u64_to_le_bytes(b)) by {
        assert(be64(a)[0] == be64(b)[0]);
        assert(be64(a)[1] == be64(b)[1]);
        assert(be64(a)[2] == be64(b)[2]);
        assert(be64(a)[3] == be64(b)[3]);
        assert(be64(a)[4] == be64(b)[4]);
        assert(be64(a)[5] == be64(b)[5]);
        assert(be64(a)[6] == be64(b)[6]);
        assert(be64(a)[7] == be64(b)[7]);
    }
}

proof fn lemma_be_lens(a: u16, b: u32, c: u64)
    ensures
        be16(a).len() == 2,
        be32(b).len() == 4,
        be64(c).len() == 8,
{
}

/// The first byte of a size header tells its form.
proof fn lemma_size_header(tiny: u8, marker8: u8, n: nat)
    requires
        n <= 0xFFFF_FFFF,
        tiny == TINY_STRING || tiny == TINY_LIST || tiny == TINY_DICT,
        marker8 == STRING_8 || marker8 == LIST_8 || marker8 == DICT_8,
    ensures
        ({
            let h = size_header(tiny, marker8, n);
            &&& (tiny <= h[0] < tiny + 16 <==> n <= 15)
            &&& n <= 15 ==> h[0] == tiny + n
            &&& (h[0] == marker8 <==> 16 <= n <= 0xFF)
            &&& (h[0] == marker8 + 1 <==> 0x100 <= n <= 0xFFFF)
            &&& (h[0] == marker8 + 2 <==> 0x10000 <= n)
            &&& n <= 15 ==> h.len() == 1
            &&& 16 <= n <= 0xFF ==> h.len() == 2 && h[1] == n
            &&& 0x100 <= n <= 0xFFFF ==> h.len() == 3 && h.subrange(1, 3) == be16(n as u16)
            &&& 0x10000 <= n ==> h.len() == 5 && h.subrange(1, 5) == be32(n as u32)
        }),
{
    let h = size_header(tiny, marker8, n);
    lemma_be_lens(n as u16, n as u32, 0);
    if 0x100 <= n <= 0xFFFF {
        assert(h.subrange(1, 3) =~= be16(n as u16));
    }
    if 0x10000 <= n {
        assert(h.subrange(1, 5) =~= be32(n as u32));
    }
}

/// The first byte of an encoding tells the kind of the value.
proof fn lemma_head(w: Value)
    requires
        encodable(w),
    ensures
        enc(w).len() >= 1,
        ({
            let m = enc(w)[0];
            &&& (w is Null <==> m == NULL)
            &&& (w is Bool <==> (m == TRUE || m == FALSE))
            &&& (w is Int <==> (m <= 0x7F || m >= 0xF0 || (INT_8 <= m <= INT_64)))
            &&& (w is Float <==> m == FLOAT_64)
            &&& (w is Str <==> ((0x80 <= m <= 0x8F) || (STRING_8 <= m <= STRING_32)))
            &&& (w is Bytes <==> (BYTES_8 <= m <= BYTES_32))
            &&& (w is List <==> ((0x90 <= m <= 0x9F) || (LIST_8 <= m <= LIST_32)))
            &&& (w is Dict <==> ((0xA0 <= m <= 0xAF) || (DICT_8 <= m <= DICT_32)))
            &&& (w is Struct <==> (0xB0 <= m <= 0xBF))
        }),
{
    match w {
        Value::Int(i) => {
            lemma_be_lens(0, 0, 0);
        },
        Value::Float(_) => {},
        Value::Str(s) => {
            lemma_size_header(TINY_STRING, STRING_8, encode_utf8(s).len());
        },
        Value::Bytes(b) => {},
        Value::List(items) => {
            lemma_size_header(TINY_LIST, LIST_8, items.len());
        },
        Value::Dict(entries) => {
            lemma_size_header(TINY_DICT, DICT_8, entries.len());
        },
        _ => {},
    }
}

proof fn lemma_split(d: Seq<u8>, p: int, a: Seq<u8>, b: Seq<u8>)
    requires
        0 <= p,
        p + a.len() + b.len() <= d.len(),
        d.subrange(p, p + a.len() + b.len()) == a + b,
    ensures
        d.subrange(p, p + a.len()) == a,
        d.subrange(p + a.len(), p + a.len() + b.len()) == b,
{
    assert(d.subrange(p, p + a.len()) =~= (a + b).subrange(0, a.len() as int));
    assert(d.subrange(p + a.len(), p + a.len() + b.len()) =~= (a + b).subrange(
        a.len() as int,
        (a.len() + b.len()) as int,
    ));
}

/// How the bytes of an integer's encoding give the integer back.
proof fn lemma_int_form(i: i64)
    ensures
        ({
            let b = enc_int(i);
            let t16 = twos(i as int, 16);
            let t32 = twos(i as int, 32);
            let t64 = twos(i as int, 64);
            &&& b.len() >= 1
            &&& b[0] <= 0x7F ==> b.len() == 1 && i == b[0]
            &&& b[0] >= 0xF0 ==> b.len() == 1 && i == b[0] - 0x100
            &&& b[0] == INT_8 ==> b.len() == 2 && i == (if b[1] >= 0x80 {
                b[1] - 0x100
            } else {
                b[1] as int
            })
            &&& b[0] == INT_16 ==> b.len() == 3 && t16 < 0x10000 && b.subrange(1, 3) == be16(
                t16 as u16,
            ) && i == (if t16 >= 0x8000 {
                t16 - 0x10000
            } else {
                t16 as int
            })
            &&& b[0] == INT_32 ==> b.len() == 5 && t32 < 0x1_0000_0000 && b.subrange(1, 5) == be32(
                t32 as u32,
            ) && i == (if t32 >= 0x8000_0000 {
                t32 - 0x1_0000_0000
            } else {
                t32 as int
            })
            &&& b[0] == INT_64 ==> b.len() == 9 && t64 < 0x1_0000_0000_0000_0000 && b.subrange(1, 9)
                == be64(t64 as u64) && i == (if t64 >= 0x8000_0000_0000_0000 {
                t64 - 0x1_0000_0000_0000_0000
            } else {
                t64 as int
            })
            &&& (b[0] <= 0x7F || b[0] >= 0xF0 || (INT_8 <= b[0] <= INT_64))
        }),
{
    let b = enc_int(i);
    lemma_be_lens(twos(i as int, 16) as u16, twos(i as int, 32) as u32, twos(i as int, 64) as u64);
    let w = int_width(i);
    if w == 16 {
        assert(b.subrange(1, 3) =~= be16(twos(i as int, 16) as u16));
    } else if w == 32 {
        assert(b.subrange(1, 5) =~= be32(twos(i as int, 32) as u32));
    } else if w == 64 {
        assert(b.subrange(1, 9) =~= be64(twos(i as int, 64) as u64));
    }
}

/// Every dictionary inside the value has distinct keys.
pub open spec fn unique_keys(v: Value) -> bool
    decreases v, 0nat,
{
    match v {
        Value::List(items) => unique_keys_items(items, items.len()),
        Value::Dict(entries) => keys_unique(entries) && unique_keys_entries(entries, entries.len()),
        Value::Struct(_, fields) => unique_keys_items(fields, fields.len()),
        _ => true,
    }
}

pub open spec fn unique_keys_items(s: Seq<Value>, n: nat) -> bool
    decreases s, n,
{
    if n == 0 || n > s.len() {
        true
    } else {
        unique_keys_items(s, (n - 1) as nat) && unique_keys(s[n - 1])
    }
}

pub open spec fn unique_keys_entries(s: Seq<(Seq<char>, Value)>, n: nat) -> bool
    decreases s, n,
{
    if n == 0 || n > s.len() {
        true
    } else {
        unique_keys_entries(s, (n - 1) as nat) && unique_keys(s[n - 1].1)
    }
}

proof fn lemma_items_all(s: Seq<Value>, n: nat)
    requires
        n <= s.len(),
    ensures
        unique_keys_items(s, n) <==> forall|i: int| 0 <= i < n ==> #[trigger] unique_keys(s[i]),
        (forall|i: int| 0 <= i < n ==> #[trigger] sound(s[i])) ==> sound_items(s, n),
    decreases n,
{
    if n > 0 {
        lemma_items_all(s, (n - 1) as nat);
        if forall|i: int| 0 <= i < n ==> #[trigger] unique_keys(s[i]) {
            assert(forall|i: int| 0 <= i < n - 1 ==> #[trigger] unique_keys(s[i]));
            assert(unique_keys(s[n - 1]));
        }
        if forall|i: int| 0 <= i < n ==> #[trigger] sound(s[i]) {
            assert(forall|i: int| 0 <= i < n - 1 ==> #[trigger] sound(s[i]));
            assert(sound(s[n - 1]));
        }
    }
}

proof fn lemma_entries_all(s: Seq<(Seq<char>, Value)>, n: nat)
    requires
        n <= s.len(),
    ensures
        unique_keys_entries(s, n) <==> forall|i: int| 0 <= i < n ==> #[trigger] unique_keys(s[i].1),
        (forall|i: int| 0 <= i < n ==> #[trigger] sound(s[i].1)) ==> sound_entries(s, n),
    decreases n,
{
    if n > 0 {
        lemma_entries_all(s, (n - 1) as nat);
        if forall|i: int| 0 <= i < n ==> #[trigger] unique_keys(s[i].1) {
            assert(forall|i: int| 0 <= i < n - 1 ==> #[trigger] unique_keys(s[i].1));
            assert(unique_keys(s[n - 1].1));
        }
        if forall|i: int| 0 <= i < n ==> #[trigger] sound(s[i].1) {
            assert(forall|i: int| 0 <= i < n - 1 ==> #[trigger] sound(s[i].1));
            assert(sound(s[n - 1].1));
        }
    }
}

/// A value of the library whose dictionaries have distinct keys is one that
/// decoding gives back: its structures always carry fields of the right
/// kinds.
pub proof fn lemma_value_sound(v: BoltValue)
    requires
        unique_keys(v@),
    ensures
        sound(v@),
    decreases v, 1nat,
{
    match v {
        BoltValue::List(items) => lemma_list_sound(items),
        BoltValue::Dict(d) => lemma_dict_sound(d),
        BoltValue::Node(n) => lemma_node_sound(n),
        BoltValue::UnboundRelationship(r) => lemma_unbound_sound(r),
        BoltValue::Relationship(r) => {
            let fs = v@->Struct_1;
            lemma_items_all(fs, 8);
            assert(unique_keys(fs[4]));
            lemma_dict_sound(r.properties);
            assert forall|i: int| 0 <= i < 8 implies #[trigger] sound(fs[i]) by {
            }
        },
        BoltValue::Path(p) => {
            let fs = v@->Struct_1;
            lemma_items_all(fs, 3);
            let ns = crate::value::view_nodes(p.nodes, p.nodes.len() as nat);
            let us = crate::value::view_unbounds(p.rels, p.rels.len() as nat);
            let is = crate::value::int_items(p.indices@);
            crate::packstream::lemma_view_nodes(p.nodes, p.nodes.len() as nat);
            crate::packstream::lemma_view_unbounds(p.rels, p.rels.len() as nat);
            assert(unique_keys(fs[0]) && unique_keys(fs[1]));
            lemma_items_all(ns, ns.len());
            lemma_items_all(us, us.len());
            lemma_items_all(is, is.len());
            assert(fs[0] == Value::List(ns));
            assert(fs[1] == Value::List(us));
            assert(unique_keys_items(ns, ns.len()));
            assert(unique_keys_items(us, us.len()));
            assert forall|i: int| 0 <= i < ns.len() implies #[trigger] sound(ns[i]) by {
                assert(unique_keys(ns[i]));
                assert(ns[i] == crate::value::view_node(p.nodes[i]));
                lemma_node_sound(p.nodes[i]);
            }
            assert forall|i: int| 0 <= i < us.len() implies #[trigger] sound(us[i]) by {
                assert(unique_keys(us[i]));
                assert(us[i] == crate::value::view_unbound(p.rels[i]));
                lemma_unbound_sound(p.rels[i]);
            }
            assert forall|i: int| 0 <= i < is.len() implies #[trigger] sound(is[i]) by {
            }
            assert forall|i: int| 0 <= i < 3 implies #[trigger] sound(fs[i]) by {
            }
        },
        _ => {
            if v@ is Struct {
                lemma_items_all(v@->Struct_1, v@->Struct_1.len());
                assert forall|i: int| 0 <= i < v@->Struct_1.len() implies #[trigger] sound(v@->Struct_1[i]) by {
                }
            }
        },
    }
}

proof fn lemma_list_sound(items: Vec<BoltValue>)
    requires
        unique_keys(Value::List(crate::value::view_items(items, items.len() as nat))),
    ensures
        sound(Value::List(crate::value::view_items(items, items.len() as nat))),
    decreases items, 0nat,
{
    let s = crate::value::view_items(items, items.len() as nat);
    crate::value::lemma_view_items_len(items, items.len() as nat);
    lemma_items_all(s, s.len());
    assert forall|i: int| 0 <= i < s.len() implies #[trigger] sound(s[i]) by {
        assert(unique_keys(s[i]));
        lemma_value_sound(items[i]);
    }
}

proof fn lemma_dict_sound(d: BoltDict)
    requires
        unique_keys(Value::Dict(d@)),
    ensures
        sound(Value::Dict(d@)),
    decreases d, 0nat,
{
    let s = d@;
    crate::value::lemma_dict_view(d);
    lemma_entries_all(s, s.len());
    assert forall|i: int| 0 <= i < s.len() implies #[trigger] sound(s[i].1) by {
        assert(unique_keys(s[i].1));
        lemma_value_sound(d.entries[i].1);
    }
}

proof fn lemma_node_sound(n: BoltNode)
    requires
        unique_keys(crate::value::view_node(n)),
    ensures
        sound(crate::value::view_node(n)),
    decreases n, 0nat,
{
    let fs = crate::value::view_node(n)->Struct_1;
    let ls = crate::value::str_items(n.labels@);
    lemma_items_all(fs, 4);
    lemma_items_all(ls, ls.len());
    assert(unique_keys(fs[2]));
    lemma_dict_sound(n.properties);
    assert forall|i: int| 0 <= i < ls.len() implies #[trigger] sound(ls[i]) by {
    }
    assert forall|i: int| 0 <= i < 4 implies #[trigger] sound(fs[i]) by {
    }
}

proof fn lemma_unbound_sound(r: BoltUnboundRelationship)
    requires
        unique_keys(crate::value::view_unbound(r)),
    ensures
        sound(crate::value::view_unbound(r)),
    decreases r, 0nat,
{
    let fs = crate::value::view_unbound(r)->Struct_1;
    lemma_items_all(fs, 4);
    assert(unique_keys(fs[2]));
    lemma_dict_sound(r.properties);
    assert forall|i: int| 0 <= i < 4 implies #[trigger] sound(fs[i]) by {
    }
}

/// Encoding a value and reading it back yields the value: for any value
/// whose sizes fit their headers and whose dictionaries have distinct keys,
/// and whatever precedes or follows its encoding, the bytes that
/// `encode_value` appends are ones on which `decode_value` returns that
/// value and the position just after it.
pub proof fn lemma_round_trip(v: BoltValue, before: Seq<u8>, after: Seq<u8>)
    requires
        encodable(v@),
        unique_keys(v@),
    ensures
        encoded_at(before + enc(v@) + after, before.len() as int, v@),
{
    lemma_value_sound(v);
    let d = before + enc(v@) + after;
    assert(d.subrange(before.len() as int, (before.len() + enc(v@).len()) as int) =~= enc(v@));
}

pub open spec fn be16_val(s: Seq<u8>) -> u16 {
    spec_u16_from_le_bytes(seq![s[1], s[0]])
}

pub open spec fn be32_val(s: Seq<u8>) -> u32 {
    spec_u32_from_le_bytes(seq![s[3], s[2], s[1], s[0]])
}

pub open spec fn be64_val(s: Seq<u8>) -> u64 {
    spec_u64_from_le_bytes(seq![s[7], s[6], s[5], s[4], s[3], s[2], s[1], s[0]])
}

/// The unsigned size of `width` bytes at `p`, big-endian.
pub open spec fn size_at(d: Seq<u8>, p: int, width: int) -> Option<nat> {
    if p < 0 || p + width > d.len() {
        None
    } else if width == 1 {
        Some(d[p] as nat)
    } else if width == 2 {
        Some(be16_val(d.subrange(p, p + 2)) as nat)
    } else {
        Some(be32_val(d.subrange(p, p + 4)) as nat)
    }
}

/// The width of the size that follows a sized marker `m` of a family
/// whose 8-bit marker is `marker8`.
pub open spec fn size_width(m: u8, marker8: u8) -> int {
    if m == marker8 {
        1
    } else if m == marker8 + 1 {
        2
    } else {
        4
    }
}

/// A size header at `p` in any of its forms: the size and the position
/// after the header.
pub open spec fn header_spec(d: Seq<u8>, p: int, tiny: u8, marker8: u8) -> Option<(nat, int)> {
    let m = d[p];
    if tiny <= m < tiny + 16 {
        Some(((m - tiny) as nat, p + 1))
    } else {
        let w = size_width(m, marker8);
        match size_at(d, p + 1, w) {
            Some(n) => Some((n, p + 1 + w)),
            None => None,
        }
    }
}

/// An integer at `p` in any of its forms.
pub open spec fn int_at(d: Seq<u8>, p: int) -> Option<(i64, int)> {
    let m = d[p];
    if m <= 0x7F {
        Some((m as i64, p + 1))
    } else if m >= 0xF0 {
        Some(((m - 0x100) as i64, p + 1))
    } else if m == INT_8 {
        if p + 2 <= d.len() {
            let b = d[p + 1];
            Some(((if b >= 0x80 { b - 0x100 } else { b as int }) as i64, p + 2))
        } else {
            None
        }
    } else if m == INT_16 {
        if p + 3 <= d.len() {
            let x = be16_val(d.subrange(p + 1, p + 3));
            Some(((if x >= 0x8000 { x - 0x10000 } else { x as int }) as i64, p + 3))
        } else {
            None
        }
    } else if m == INT_32 {
        if p + 5 <= d.len() {
            let x = be32_val(d.subrange(p + 1, p + 5));
            Some(((if x >= 0x8000_0000 { x - 0x1_0000_0000 } else { x as int }) as i64, p + 5))
        } else {
            None
        }
    } else {
        if p + 9 <= d.len() {
            let x = be64_val(d.subrange(p + 1, p + 9));
            Some(
                (
                    (if x >= 0x8000_0000_0000_0000 {
                        x - 0x1_0000_0000_0000_0000
                    } else {
                        x as int
                    }) as i64,
                    p + 9,
                ),
            )
        } else {
            None
        }
    }
}

/// The characters whose UTF-8 encoding is the `len` bytes at `q`, if those
/// bytes are there and are valid UTF-8.
pub open spec fn text_at(d: Seq<u8>, q: int, len: nat) -> Option<Seq<char>> {
    if q < 0 || q + len > d.len() {
        None
    } else if exists|c: Seq<char>| encode_utf8(c) == d.subrange(q, q + len) {
        Some(choose|c: Seq<char>| encode_utf8(c) == d.subrange(q, q + len))
    } else {
        None
    }
}

/// Every marker byte that begins no value.
pub open spec fn reserved_marker(m: u8) -> bool {
    (0xC4 <= m <= 0xC7) || m == 0xCF || m == 0xD3 || m == 0xD7 || (0xDB <= m <= 0xEF)
}

/// `xs` in front of the values of a parse result.
pub open spec fn prepend(xs: Seq<Value>, o: Option<(Seq<Value>, int)>) -> Option<(Seq<Value>, int)> {
    match o {
        Some((vs, e)) => Some((xs + vs, e)),
        None => None,
    }
}

/// A decoder result that agrees with `parse`.
pub open spec fn agrees(r: Result<(BoltValue, usize), BoltError>, d: Seq<u8>, p: int) -> bool {
    match parse(d, p) {
        Some((w, e)) => r is Ok && r->Ok_0.0@ == w && r->Ok_0.1 == e,
        None => r is Err,
    }
}

/// Reading one value at `p`, in any legal form: the value and the position
/// after it, or `None` when the bytes there are not a complete legal
/// encoding.
pub open spec fn parse(d: Seq<u8>, p: int) -> Option<(Value, int)>
    decreases d.len() - p, 3nat,
{
    if p < 0 || p >= d.len() {
        None
    } else {
        let m = d[p];
        if m == NULL {
            Some((Value::Null, p + 1))
        } else if m == FALSE || m == TRUE {
            Some((Value::Bool(m == TRUE), p + 1))
        } else if m == FLOAT_64 {
            if p + 9 <= d.len() {
                Some((Value::Float(be64_val(d.subrange(p + 1, p + 9))), p + 9))
            } else {
                None
            }
        } else if m <= 0x7F || m >= 0xF0 || (INT_8 <= m <= INT_64) {
            match int_at(d, p) {
                Some((i, e)) => Some((Value::Int(i), e)),
                None => None,
            }
        } else if BYTES_8 <= m <= BYTES_32 {
            let w = size_width(m, BYTES_8);
            match size_at(d, p + 1, w) {
                Some(n) => if p + 1 + w + n <= d.len() {
                    Some((Value::Bytes(d.subrange(p + 1 + w, p + 1 + w + n)), p + 1 + w + n))
                } else {
                    None
                },
                None => None,
            }
        } else if (0x80 <= m <= 0x8F) || (STRING_8 <= m <= STRING_32) {
            match header_spec(d, p, TINY_STRING, STRING_8) {
                Some((n, q)) => match text_at(d, q, n) {
                    Some(c) => Some((Value::Str(c), q + n)),
                    None => None,
                },
                None => None,
            }
        } else if (0x90 <= m <= 0x9F) || (LIST_8 <= m <= LIST_32) {
            match header_spec(d, p, TINY_LIST, LIST_8) {
                Some((n, q)) => if p < q <= d.len() {
                    match parse_items(d, q, n) {
                        Some((vs, e)) => Some((Value::List(vs), e)),
                        None => None,
                    }
                } else {
                    None
                },
                None => None,
            }
        } else if (0xA0 <= m <= 0xAF) || (DICT_8 <= m <= DICT_32) {
            match header_spec(d, p, TINY_DICT, DICT_8) {
                Some((n, q)) => if p < q <= d.len() {
                    match parse_entries(d, q, n, Seq::empty()) {
                        Some((es, e)) => Some((Value::Dict(es), e)),
                        None => None,
                    }
                } else {
                    None
                },
                None => None,
            }
        } else if 0xB0 <= m <= 0xBF {
            if p + 2 <= d.len() {
                match parse_items(d, p + 2, (m - 0xB0) as nat) {
                    Some((fs, e)) => match build(d[p + 1], fs) {
                        Some(v) => Some((v, e)),
                        None => None,
                    },
                    None => None,
                }
            } else {
                None
            }
        } else {
            None
        }
    }
}

/// Reading `n` values one after the other from `p`.
pub open spec fn parse_items(d: Seq<u8>, p: int, n: nat) -> Option<(Seq<Value>, int)>
    decreases d.len() - p, 4nat, n,
{
    if n == 0 {
        Some((Seq::empty(), p))
    } else if p < 0 || p >= d.len() {
        None
    } else {
        match parse(d, p) {
            Some((v, q)) => if p < q <= d.len() {
                match parse_items(d, q, (n - 1) as nat) {
                    Some((vs, e)) => Some((seq![v] + vs, e)),
                    None => None,
                }
            } else {
                None
            },
            None => None,
        }
    }
}

/// Reading `n` key-value entries from `p` into `acc`; a key read again
/// replaces the earlier value.
pub open spec fn parse_entries(d: Seq<u8>, p: int, n: nat, acc: Seq<(Seq<char>, Value)>) -> Option<(Seq<(Seq<char>, Value)>, int)>
    decreases d.len() - p, 4nat, n,
{
    if n == 0 {
        Some((acc, p))
    } else if p < 0 || p >= d.len() {
        None
    } else {
        match parse(d, p) {
            Some((Value::Str(k), q)) => if p < q < d.len() {
                match parse(d, q) {
                    Some((v, q2)) => if q < q2 <= d.len() {
                        parse_entries(d, q2, (n - 1) as nat, dict_insert(acc, k, v))
                    } else {
                        None
                    },
                    None => None,
                }
            } else {
                None
            },
            _ => None,
        }
    }
}

/// The element id of a form that carries none: the decimal form of the id.
pub open spec fn id_text(v: Value) -> Value {
    Value::Str(decimal(v->Int_0 as int))
}

/// The value of a structure with this tag and these decoded fields: the
/// known structures with fields of the right kinds (the older node and
/// relationship forms without element ids included); extra fields are
/// ignored.
pub open spec fn build(tag: u8, fs: Seq<Value>) -> Option<Value> {
    if tag == TAG_NODE {
        if fs.len() >= 3 && fs[0] is Int && str_list(fs[1]) && fs[2] is Dict && (fs.len() >= 4
            ==> fs[3] is Str) {
            Some(Value::Struct(TAG_NODE, seq![fs[0], fs[1], fs[2], if fs.len() >= 4 { fs[3] } else { id_text(fs[0]) }]))
        } else {
            None
        }
    } else if tag == TAG_UNBOUND_RELATIONSHIP {
        if fs.len() >= 3 && fs[0] is Int && fs[1] is Str && fs[2] is Dict && (fs.len() >= 4
            ==> fs[3] is Str) {
            Some(Value::Struct(TAG_UNBOUND_RELATIONSHIP, seq![fs[0], fs[1], fs[2], if fs.len() >= 4 { fs[3] } else { id_text(fs[0]) }]))
        } else {
            None
        }
    } else if tag == TAG_RELATIONSHIP {
        if fs.len() >= 5 && fs[0] is Int && fs[1] is Int && fs[2] is Int && fs[3] is Str && fs[4] is Dict
            && (fs.len() >= 8 ==> fs[5] is Str && fs[6] is Str && fs[7] is Str) {
            Some(Value::Struct(TAG_RELATIONSHIP, if fs.len() >= 8 {
                fs.take(8)
            } else {
                fs.take(5) + seq![id_text(fs[0]), id_text(fs[1]), id_text(fs[2])]
            }))
        } else {
            None
        }
    } else if tag == TAG_PATH {
        if fs.len() >= 3 && tagged_list(fs[0], TAG_NODE) && tagged_list(fs[1], TAG_UNBOUND_RELATIONSHIP)
            && int_list(fs[2]) {
            Some(Value::Struct(TAG_PATH, fs.take(3)))
        } else {
            None
        }
    } else {
        let k = plain_field_count(tag);
        if k > 0 && fs.len() >= k && struct_shape(tag, fs.take(k)) {
            Some(Value::Struct(tag, fs.take(k)))
        } else {
            None
        }
    }
}

/// A structure in its full form is built as it stands.
pub proof fn lemma_build_full(tag: u8, fs: Seq<Value>)
    requires
        struct_shape(tag, fs),
    ensures
        build(tag, fs) == Some(Value::Struct(tag, fs)),
{
    assert(fs.take(fs.len() as int) =~= fs);
    if tag == TAG_NODE || tag == TAG_UNBOUND_RELATIONSHIP {
        assert(seq![fs[0], fs[1], fs[2], fs[3]] =~= fs);
    }
}

/// The number of fields of a temporal or spatial structure (0 for other
/// tags).
pub open spec fn plain_field_count(tag: u8) -> int {
    if tag == TAG_DATE || tag == TAG_LOCAL_TIME {
        1
    } else if tag == TAG_TIME || tag == TAG_LOCAL_DATE_TIME {
        2
    } else if tag == TAG_DATE_TIME || tag == TAG_DATE_TIME_ZONE_ID || tag == TAG_POINT_2D {
        3
    } else if tag == TAG_DURATION || tag == TAG_POINT_3D {
        4
    } else {
        0
    }
}

/// Relies on `String::from_utf8`: it accepts the UTF-8 encoding of any
/// characters, and a string it returns holds exactly the given bytes.
#[verifier::external_body]
fn string_from_utf8(bytes: Vec<u8>) -> (r: Option<String>)
    ensures
        (exists|c: Seq<char>| encode_utf8(c) == bytes@) ==> r is Some,
        r is Some ==> encode_utf8(r->Some_0@) == bytes@,
{
    String::from_utf8(bytes).ok()
}

fn read_be16(data: &[u8], p: usize) -> (r: u16)
    requires
        p + 2 <= data@.len(),
    ensures
        be16(r) == data@.subrange(p as int, p + 2),
        r == be16_val(data@.subrange(p as int, p + 2)),
{
    let _n = data.len();
    let le: Vec<u8> = vec![data[p + 1], data[p]];
    let r = u16_from_le_bytes(le.as_slice());
    proof {
        lemma_auto_spec_u16_to_from_le_bytes();
        assert(spec_u16_to_le_bytes(r) == le@);
        assert(be16(r) =~= data@.subrange(p as int, p + 2));
        assert(le@ =~= seq![data@[p + 1], data@[p as int]]);
        assert(seq![data@[p + 1], data@[p as int]] =~= seq![data@.subrange(p as int, p + 2)[1], data@.subrange(p as int, p + 2)[0]]);
    }
    r
}

fn read_be32(data: &[u8], p: usize) -> (r: u32)
    requires
        p + 4 <= data@.len(),
    ensures
        be32(r) == data@.subrange(p as int, p + 4),
        r == be32_val(data@.subrange(p as int, p + 4)),
{
    let _n = data.len();
    let le: Vec<u8> = vec![data[p + 3], data[p + 2], data[p + 1], data[p]];
    let r = u32_from_le_bytes(le.as_slice());
    proof {
        lemma_auto_spec_u32_to_from_le_bytes();
        assert(spec_u32_to_le_bytes(r) == le@);
        assert(be32(r) =~= data@.subrange(p as int, p + 4));
        assert(le@ =~= seq![data@[p + 3], data@[p + 2], data@[p + 1], data@[p as int]]);
        assert(seq![data@[p + 3], data@[p + 2], data@[p + 1], data@[p as int]] =~= seq![data@.subrange(p as int, p + 4)[3], data@.subrange(p as int, p + 4)[2], data@.subrange(p as int, p + 4)[1], data@.subrange(p as int, p + 4)[0]]);
    }
    r
}

fn read_be64(data: &[u8], p: usize) -> (r: u64)
    requires
        p + 8 <= data@.len(),
    ensures
        be64(r) == data@.subrange(p as int, p + 8),
        r == be64_val(data@.subrange(p as int, p + 8)),
{
    let _n = data.len();
    let le: Vec<u8> = vec![
        data[p + 7],
        data[p + 6],
        data[p + 5],
        data[p + 4],
        data[p + 3],
        data[p + 2],
        data[p + 1],
        data[p],
    ];
    let r = u64_from_le_bytes(le.as_slice());
    proof {
        lemma_auto_spec_u64_to_from_le_bytes();
        assert(spec_u64_to_le_bytes(r) == le@);
        assert(be64(r) =~= data@.subrange(p as int, p + 8));
        assert(le@ =~= seq![data@[p + 7], data@[p + 6], data@[p + 5], data@[p + 4], data@[p + 3], data@[p + 2], data@[p + 1], data@[p as int]]);
        assert(seq![data@[p + 7], data@[p + 6], data@[p + 5], data@[p + 4], data@[p + 3], data@[p + 2], data@[p + 1], data@[p as int]] =~= seq![data@.subrange(p as int, p + 8)[7], data@.subrange(p as int, p + 8)[6], data@.subrange(p as int, p + 8)[5], data@.subrange(p as int, p + 8)[4], data@.subrange(p as int, p + 8)[3], data@.subrange(p as int, p + 8)[2], data@.subrange(p as int, p + 8)[1], data@.subrange(p as int, p + 8)[0]]);
    }
    r
}

/// Reads the length that follows a sized marker: one, two or four bytes.
fn read_size(data: &[u8], p: usize, width: usize) -> (r: Result<(usize, usize), BoltError>)
    requires
        p <= data@.len(),
        width == 1 || width == 2 || width == 4,
    ensures
        r is Ok <==> p + width <= data@.len(),
        r is Ok ==> r->Ok_0.1 == p + width,
        r is Ok && width == 1 ==> r->Ok_0.0 == data@[p as int],
        r is Ok && width == 2 ==> r->Ok_0.0 < 0x10000 && be16(r->Ok_0.0 as u16) == data@.subrange(p as int, p + 2),
        r is Ok && width == 4 ==> r->Ok_0.0 < 0x1_0000_0000 && be32(r->Ok_0.0 as u32) == data@.subrange(p as int, p + 4),
        r is Err ==> r->Err_0 is Protocol,
        match size_at(data@, p as int, width as int) {
            Some(n) => r is Ok && r->Ok_0.0 == n,
            None => r is Err,
        },
{
    if data.len() - p < width {
        return Err(protocol_error(END_OF_DATA));
    }
    if width == 1 {
        Ok((data[p] as usize, p + 1))
    } else if width == 2 {
        Ok((read_be16(data, p) as usize, p + 2))
    } else {
        Ok((read_be32(data, p) as usize, p + 4))
    }
}

/// The size header of a string, list or dictionary, and its length.
pub open spec fn header_at(d: Seq<u8>, p: int, tiny: u8, marker8: u8, n: nat) -> bool {
    &&& n <= 0xFFFF_FFFF
    &&& 0 <= p
    &&& p + size_header(tiny, marker8, n).len() <= d.len()
    &&& d.subrange(p, p + size_header(tiny, marker8, n).len()) == size_header(tiny, marker8, n)
}

/// Reads the size header of a string, list or dictionary at `pos`: the
/// size, and the position after the header.
#[verifier::rlimit(60)]
fn read_header(data: &[u8], pos: usize, tiny: u8, marker8: u8) -> (r: Result<(usize, usize), BoltError>)
    requires
        pos < data@.len(),
        (tiny == TINY_STRING && marker8 == STRING_8) || (tiny == TINY_LIST && marker8 == LIST_8)
            || (tiny == TINY_DICT && marker8 == DICT_8),
        (tiny <= data@[pos as int] < tiny + 16) || (marker8 <= data@[pos as int] <= marker8 + 2),
    ensures
        r is Ok ==> pos < r->Ok_0.1 <= data@.len(),
        r is Err ==> r->Err_0 is Protocol,
        forall|n: nat| #[trigger] header_at(data@, pos as int, tiny, marker8, n) ==> r is Ok
            && r->Ok_0.0 == n && r->Ok_0.1 == pos + size_header(tiny, marker8, n).len(),
        match header_spec(data@, pos as int, tiny, marker8) {
            Some((n, q)) => r is Ok && r->Ok_0.0 == n && r->Ok_0.1 == q,
            None => r is Err,
        },
{
    let m = data[pos];
    let ghost d = data@;
    if tiny <= m && m < tiny + 16 {
        proof {
            assert forall|n: nat| #[trigger] header_at(d, pos as int, tiny, marker8, n) implies n == m - tiny && size_header(tiny, marker8, n).len() == 1 by {
                lemma_size_header(tiny, marker8, n);
                assert(d.subrange(pos as int, pos + size_header(tiny, marker8, n).len())[0] == m);
            }
        }
        return Ok(((m - tiny) as usize, pos + 1));
    }
    let width: usize = if m == marker8 { 1 } else if m == marker8 + 1 { 2 } else { 4 };
    let r = read_size(data, pos + 1, width);
    proof {
        assert forall|n: nat| #[trigger] header_at(d, pos as int, tiny, marker8, n) implies r is Ok
            && r->Ok_0.0 == n && r->Ok_0.1 == pos + size_header(tiny, marker8, n).len() by {
            let h = size_header(tiny, marker8, n);
            lemma_size_header(tiny, marker8, n);
            assert(d.subrange(pos as int, pos + h.len())[0] == m);
            if width == 1 {
                assert(d.subrange(pos as int, pos + h.len())[1] == d[pos + 1]);
            } else if width == 2 {
                assert(d.subrange(pos + 1, pos + 3) =~= h.subrange(1, 3));
                lemma_be16_inj(r->Ok_0.0 as u16, n as u16);
            } else {
                assert(d.subrange(pos + 1, pos + 5) =~= h.subrange(1, 5));
                lemma_be32_inj(r->Ok_0.0 as u32, n as u32);
            }
        }
    }
    r
}

/// Decodes one value that starts at `pos`; returns it with the position
/// just after it. The result is exactly what `parse` gives: any legal form
/// is accepted, and bytes that are not a complete legal encoding (cut
/// short, a reserved marker, a key that is not a string, text that is not
/// UTF-8, an unknown structure) give a protocol error. Whatever the encoder
/// writes for a well-formed value comes back as that value.
pub fn decode_value(data: &[u8], pos: usize) -> (r: Result<(BoltValue, usize), BoltError>)
    requires
        pos <= data@.len(),
    ensures
        pos < data@.len() && reserved_marker(data@[pos as int]) ==> r is Err,
        agrees(r, data@, pos as int),
        decode_outcome(data@, pos as int, r),
        forall|w: Value| #[trigger] encoded_at(data@, pos as int, w) ==> decodes_to(r, pos as int, w),
    decreases data@.len() - pos, 3nat,
{
    let ghost d = data@;
    if pos >= data.len() {
        proof {
            assert forall|w: Value| #[trigger] encoded_at(d, pos as int, w) implies false by {
                lemma_head(w);
            }
        }
        return Err(protocol_error(END_OF_DATA));
    }
    let m = data[pos];
    let p = pos + 1;
    proof {
        assert forall|w: Value| #[trigger] encoded_at(d, pos as int, w) implies enc(w)[0] == m by {
            lemma_head(w);
            assert(d.subrange(pos as int, pos + enc(w).len())[0] == d[pos as int]);
        }
    }
    if m == NULL || m == FALSE || m == TRUE {
        let v = if m == NULL { BoltValue::Null } else { BoltValue::Boolean(m == TRUE) };
        proof {
            assert forall|w: Value| #[trigger] encoded_at(d, pos as int, w) implies decodes_to(Ok::<(BoltValue, usize), BoltError>((v, p)), pos as int, w) by {
                lemma_head(w);
            }
        }
        Ok((v, p))
    } else if m == FLOAT_64 {
        if data.len() - p < 8 {
            proof {
                assert forall|w: Value| #[trigger] encoded_at(d, pos as int, w) implies false by {
                    lemma_head(w);
                    lemma_be_lens(0, 0, w->Float_0);
                }
            }
            return Err(protocol_error(END_OF_DATA));
        }
        let x = read_be64(data, p);
        proof {
            assert forall|w: Value| #[trigger] encoded_at(d, pos as int, w) implies decodes_to(Ok::<(BoltValue, usize), BoltError>((BoltValue::Float(x), (p + 8) as usize)), pos as int, w) by {
                lemma_head(w);
                lemma_be_lens(0, 0, w->Float_0);
                assert(d.subrange(p as int, p + 8) =~= d.subrange(pos as int, pos + enc(w).len()).subrange(1, 9));
                assert(enc(w).subrange(1, 9) =~= be64(w->Float_0));
                lemma_be64_inj(x, w->Float_0);
            }
        }
        Ok((BoltValue::Float(x), p + 8))
    } else if m <= 0x7F || m >= 0xF0 || (INT_8 <= m && m <= INT_64) {
        decode_int(data, pos)
    } else if BYTES_8 <= m && m <= BYTES_32 {
        decode_bytes(data, pos)
    } else if (0x80 <= m && m <= 0x8F) || (STRING_8 <= m && m <= STRING_32) {
        decode_str(data, pos)
    } else if (0x90 <= m && m <= 0x9F) || (LIST_8 <= m && m <= LIST_32) {
        decode_list(data, pos)
    } else if (0xA0 <= m && m <= 0xAF) || (DICT_8 <= m && m <= DICT_32) {
        decode_dict(data, pos)
    } else if 0xB0 <= m && m <= 0xBF {
        if p >= data.len() {
            proof {
                assert forall|w: Value| #[trigger] encoded_at(d, pos as int, w) implies false by {
                    lemma_head(w);
                }
            }
            return Err(protocol_error(END_OF_DATA));
        }
        let tag = data[p];
        let count = (m - 0xB0) as usize;
        let r = decode_struct(data, p + 1, tag, count);
        proof {
            assert forall|w: Value| #[trigger] encoded_at(d, pos as int, w) implies decodes_to(r, pos as int, w) by {
                lemma_head(w);
                let fs = w->Struct_1;
                let h = seq![(TINY_STRUCT + fs.len()) as u8, w->Struct_0];
                let body = enc_items(fs, fs.len());
                assert(enc(w) == h + body);
                lemma_split(d, pos as int, h, body);
                assert(d.subrange(pos as int, pos + 2)[1] == d[pos + 1]);
                assert(items_at(d, pos + 2, count as nat, fs));
            }
        }
        r
    } else {
        proof {
            assert forall|w: Value| #[trigger] encoded_at(d, pos as int, w) implies false by {
                lemma_head(w);
            }
        }
        Err(protocol_error("unknown PackStream marker"))
    }
}

/// Decodes an integer in any of its forms.
fn decode_int(data: &[u8], pos: usize) -> (r: Result<(BoltValue, usize), BoltError>)
    requires
        pos < data@.len(),
        data@[pos as int] <= 0x7F || data@[pos as int] >= 0xF0 || (INT_8 <= data@[pos as int]
            <= INT_64),
    ensures
        agrees(r, data@, pos as int),
        decode_outcome(data@, pos as int, r),
        forall|w: Value| #[trigger] encoded_at(data@, pos as int, w) ==> decodes_to(r, pos as int, w),
{
    let m = data[pos];
    let p = pos + 1;
    let ghost d = data@;
    let r = if m <= 0x7F {
        Ok((BoltValue::Integer(m as i64), p))
    } else if m >= 0xF0 {
        Ok((BoltValue::Integer(m as i64 - 256), p))
    } else if m == INT_8 {
        if data.len() - p < 1 {
            Err(protocol_error(END_OF_DATA))
        } else {
            let b = data[p];
            let v: i64 = if b >= 0x80 { b as i64 - 0x100 } else { b as i64 };
            Ok((BoltValue::Integer(v), p + 1))
        }
    } else if m == INT_16 {
        if data.len() - p < 2 {
            Err(protocol_error(END_OF_DATA))
        } else {
            let x = read_be16(data, p);
            let v: i64 = if x >= 0x8000 { x as i64 - 0x10000 } else { x as i64 };
            proof {
                assert forall|w: Value| #[trigger] encoded_at(d, pos as int, w) implies w->Int_0 == v by {
                    lemma_head(w);
                    lemma_int_form(w->Int_0);
                    let e = enc(w);
                    assert(e[0] == d.subrange(pos as int, pos + e.len())[0]);
                    assert(d.subrange(p as int, p + 2) =~= d.subrange(pos as int, pos + e.len()).subrange(1, 3));
                    lemma_be16_inj(x, twos(w->Int_0 as int, 16) as u16);
                }
            }
            Ok((BoltValue::Integer(v), p + 2))
        }
    } else if m == INT_32 {
        if data.len() - p < 4 {
            Err(protocol_error(END_OF_DATA))
        } else {
            let x = read_be32(data, p);
            let v: i64 = if x >= 0x8000_0000 { x as i64 - 0x1_0000_0000 } else { x as i64 };
            proof {
                assert forall|w: Value| #[trigger] encoded_at(d, pos as int, w) implies w->Int_0 == v by {
                    lemma_head(w);
                    lemma_int_form(w->Int_0);
                    let e = enc(w);
                    assert(e[0] == d.subrange(pos as int, pos + e.len())[0]);
                    assert(d.subrange(p as int, p + 4) =~= d.subrange(pos as int, pos + e.len()).subrange(1, 5));
                    lemma_be32_inj(x, twos(w->Int_0 as int, 32) as u32);
                }
            }
            Ok((BoltValue::Integer(v), p + 4))
        }
    } else {
        if data.len() - p < 8 {
            Err(protocol_error(END_OF_DATA))
        } else {
            let x = read_be64(data, p);
            let v: i64 = if x >= 0x8000_0000_0000_0000 {
                ((x - 0x8000_0000_0000_0000) as i64) - 0x7FFF_FFFF_FFFF_FFFF - 1
            } else {
                x as i64
            };
            proof {
                assert forall|w: Value| #[trigger] encoded_at(d, pos as int, w) implies w->Int_0 == v by {
                    lemma_head(w);
                    lemma_int_form(w->Int_0);
                    let e = enc(w);
                    assert(e[0] == d.subrange(pos as int, pos + e.len())[0]);
                    assert(d.subrange(p as int, p + 8) =~= d.subrange(pos as int, pos + e.len()).subrange(1, 9));
                    lemma_be64_inj(x, twos(w->Int_0 as int, 64) as u64);
                }
            }
            Ok((BoltValue::Integer(v), p + 8))
        }
    };
    proof {
        assert forall|w: Value| #[trigger] encoded_at(d, pos as int, w) implies decodes_to(r, pos as int, w) by {
            lemma_head(w);
            lemma_int_form(w->Int_0);
            let e = enc(w);
            assert(e[0] == d.subrange(pos as int, pos + e.len())[0]);
            if m == INT_8 {
                assert(e[1] == d.subrange(pos as int, pos + e.len())[1]);
            }
        }
    }
    r
}

fn copy_bytes(data: &[u8], p: usize, len: usize) -> (r: Vec<u8>)
    requires
        p + len <= data@.len(),
    ensures
        r@ == data@.subrange(p as int, p + len),
{
    let _n = data.len();
    let mut out: Vec<u8> = Vec::new();
    let mut i: usize = 0;
    while i < len
        invariant
            i <= len,
            p + len <= data@.len(),
            data@.len() <= usize::MAX,
            out@ == data@.subrange(p as int, p + i),
        decreases len - i,
    {
        out.push(data[p + i]);
        i += 1;
        assert(out@ =~= data@.subrange(p as int, p + i));
    }
    out
}

/// Decodes a byte array in any of its three forms.
fn decode_bytes(data: &[u8], pos: usize) -> (r: Result<(BoltValue, usize), BoltError>)
    requires
        pos < data@.len(),
        BYTES_8 <= data@[pos as int] <= BYTES_32,
    ensures
        agrees(r, data@, pos as int),
        decode_outcome(data@, pos as int, r),
        forall|w: Value| #[trigger] encoded_at(data@, pos as int, w) ==> decodes_to(r, pos as int, w),
{
    let ghost d = data@;
    let m = data[pos];
    let width: usize = if m == BYTES_8 { 1 } else if m == BYTES_16 { 2 } else { 4 };
    let hdr = read_size(data, pos + 1, width);
    let r = match hdr {
        Err(e) => Err(e),
        Ok((len, q)) => {
            if data.len() - q < len {
                Err(protocol_error(END_OF_DATA))
            } else {
                Ok((BoltValue::Bytes(copy_bytes(data, q, len)), q + len))
            }
        },
    };
    proof {
        assert forall|w: Value| #[trigger] encoded_at(d, pos as int, w) implies decodes_to(r, pos as int, w) by {
            lemma_head(w);
            let b = w->Bytes_0;
            let h = bytes_header(b.len());
            lemma_be_lens(b.len() as u16, b.len() as u32, 0);
            assert(enc(w) == h + b);
            lemma_split(d, pos as int, h, b);
            assert(d.subrange(pos as int, pos + h.len())[0] == m);
            if width == 1 {
                assert(d.subrange(pos as int, pos + h.len())[1] == d[pos + 1]);
            } else if width == 2 {
                assert(d.subrange(pos + 1, pos + 3) =~= h.subrange(1, 3));
                assert(h.subrange(1, 3) =~= be16(b.len() as u16));
                lemma_be16_inj(hdr->Ok_0.0 as u16, b.len() as u16);
            } else {
                assert(d.subrange(pos + 1, pos + 5) =~= h.subrange(1, 5));
                assert(h.subrange(1, 5) =~= be32(b.len() as u32));
                lemma_be32_inj(hdr->Ok_0.0 as u32, b.len() as u32);
            }
        }
    }
    r
}

fn decode_string(data: &[u8], p: usize, len: usize) -> (r: Result<(String, usize), BoltError>)
    requires
        p <= data@.len(),
    ensures
        r is Ok ==> r->Ok_0.1 == p + len && r->Ok_0.1 <= data@.len() && encode_utf8(
            r->Ok_0.0@,
        ) == data@.subrange(p as int, p + len),
        r is Err ==> r->Err_0 is Protocol,
        forall|s: Seq<char>|
            p + len <= data@.len() && #[trigger] encode_utf8(s) == data@.subrange(p as int, p + len)
                ==> r is Ok && r->Ok_0.0@ == s,
{
    if data.len() - p < len {
        return Err(protocol_error(END_OF_DATA));
    }
    let bytes = copy_bytes(data, p, len);
    let ghost b = bytes@;
    match string_from_utf8(bytes) {
        Some(t) => {
            proof {
                assert forall|s: Seq<char>| #[trigger] encode_utf8(s) == b implies t@ == s by {
                    vstd::utf8::encode_utf8_decode_utf8(s);
                    vstd::utf8::encode_utf8_decode_utf8(t@);
                }
            }
            Ok((t, p + len))
        },
        None => Err(protocol_error(INVALID_UTF8)),
    }
}

/// Decodes a string in any of its four forms.
fn decode_str(data: &[u8], pos: usize) -> (r: Result<(BoltValue, usize), BoltError>)
    requires
        pos < data@.len(),
        (0x80 <= data@[pos as int] <= 0x8F) || (STRING_8 <= data@[pos as int] <= STRING_32),
    ensures
        agrees(r, data@, pos as int),
        decode_outcome(data@, pos as int, r),
        forall|w: Value| #[trigger] encoded_at(data@, pos as int, w) ==> decodes_to(r, pos as int, w),
{
    let ghost d = data@;
    let hdr = read_header(data, pos, TINY_STRING, STRING_8);
    let r = match hdr {
        Err(e) => Err(e),
        Ok((len, q)) => match decode_string(data, q, len) {
            Err(e) => Err(e),
            Ok((s, end)) => Ok((BoltValue::String(s), end)),
        },
    };
    proof {
        assert forall|w: Value| #[trigger] encoded_at(d, pos as int, w) implies decodes_to(r, pos as int, w) by {
            lemma_head(w);
            let s = w->Str_0;
            let n = encode_utf8(s).len();
            let h = size_header(TINY_STRING, STRING_8, n);
            assert(enc(w) == h + encode_utf8(s));
            lemma_split(d, pos as int, h, encode_utf8(s));
            assert(header_at(d, pos as int, TINY_STRING, STRING_8, n));
        }
    }
    r
}

/// The encodings of `ws`, `n` values, stand in `d` from `p` on.
pub open spec fn items_at(d: Seq<u8>, p: int, n: nat, ws: Seq<Value>) -> bool {
    &&& ws.len() == n
    &&& encodable_items(ws, n)
    &&& sound_items(ws, n)
    &&& 0 <= p
    &&& p + enc_items(ws, n).len() <= d.len()
    &&& d.subrange(p, p + enc_items(ws, n).len()) == enc_items(ws, n)
}

proof fn lemma_enc_items_prefix(s: Seq<Value>, i: nat, n: nat)
    requires
        i <= n <= s.len(),
    ensures
        enc_items(s, i).len() <= enc_items(s, n).len(),
        enc_items(s, n).subrange(0, enc_items(s, i).len() as int) == enc_items(s, i),
    decreases n - i,
{
    if i < n {
        lemma_enc_items_prefix(s, i, (n - 1) as nat);
        assert(enc_items(s, n).subrange(0, enc_items(s, i).len() as int) =~= enc_items(
            s,
            (n - 1) as nat,
        ).subrange(0, enc_items(s, i).len() as int));
    } else {
        assert(enc_items(s, n).subrange(0, enc_items(s, i).len() as int) =~= enc_items(s, i));
    }
}

pub proof fn lemma_item_at(d: Seq<u8>, p: int, n: nat, ws: Seq<Value>, i: nat)
    requires
        items_at(d, p, n, ws),
        i < n,
    ensures
        encoded_at(d, p + enc_items(ws, i).len(), ws[i as int]),
        enc_items(ws, i + 1).len() == enc_items(ws, i).len() + enc(ws[i as int]).len(),
{
    lemma_enc_items_prefix(ws, i + 1, n);
    lemma_encodable_items(ws, n, i as int);
    lemma_sound_items(ws, n, i as int);
    let a = enc_items(ws, i);
    let b = enc(ws[i as int]);
    assert(enc_items(ws, i + 1) == a + b);
    assert(d.subrange(p, p + a.len() + b.len()) =~= enc_items(ws, n).subrange(0, (a.len() + b.len()) as int));
    lemma_split(d, p, a, b);
}

/// Decodes `len` values one after the other from `p`.
fn decode_list_data(data: &[u8], p: usize, len: usize) -> (r: Result<(Vec<BoltValue>, usize), BoltError>)
    requires
        p <= data@.len(),
    ensures
        r is Ok ==> p <= r->Ok_0.1 <= data@.len() && r->Ok_0.0.len() == len,
        r is Err ==> r->Err_0 is Protocol,
        forall|ws: Seq<Value>| #[trigger] items_at(data@, p as int, len as nat, ws) ==> r is Ok
            && crate::value::view_items(r->Ok_0.0, len as nat) == ws && r->Ok_0.1 == p + enc_items(ws, len as nat).len(),
        match parse_items(data@, p as int, len as nat) {
            Some((vs, e)) => r is Ok && crate::value::view_items(r->Ok_0.0, len as nat) == vs && r->Ok_0.1 == e,
            None => r is Err,
        },
    decreases data@.len() - p, 4nat,
{
    let ghost d = data@;
    let mut items: Vec<BoltValue> = Vec::new();
    let mut cur = p;
    let mut i: usize = 0;
    while i < len
        invariant
            d == data@,
            p <= cur <= data@.len(),
            i <= len,
            items.len() == i,
            forall|ws: Seq<Value>| #[trigger] items_at(d, p as int, len as nat, ws) ==> crate::value::view_items(items, i as nat)
                =~= ws.take(i as int) && cur == p + enc_items(ws, i as nat).len(),
            parse_items(d, p as int, len as nat) == prepend(crate::value::view_items(items, i as nat), parse_items(d, cur as int, (len - i) as nat)),
        decreases len - i,
    {
        let next_item = decode_value(data, cur);
        let (v, next) = match next_item {
            Ok(x) => x,
            Err(e) => {
                proof {
                    assert forall|ws: Seq<Value>| #[trigger] items_at(d, p as int, len as nat, ws) implies false by {
                        lemma_item_at(d, p as int, len as nat, ws, i as nat);
                    }
                }
                proof {
                    assert(parse_items(d, cur as int, (len - i) as nat) is None);
                }
                return Err(e);
            },
        };
        let ghost old_items = items;
        items.push(v);
        proof {
            crate::value::lemma_view_items_len(old_items, i as nat);
            crate::value::lemma_view_items_len(items, (i + 1) as nat);
            assert forall|ws: Seq<Value>| #[trigger] items_at(d, p as int, len as nat, ws) implies crate::value::view_items(items, (i + 1) as nat)
                =~= ws.take(i + 1) && next == p + enc_items(ws, (i + 1) as nat).len() by {
                lemma_item_at(d, p as int, len as nat, ws, i as nat);
                assert forall|j: int| 0 <= j < i + 1 implies #[trigger] crate::value::view_items(items, (i + 1) as nat)[j] == ws.take(i + 1)[j] by {
                    if j < i {
                        assert(items[j] == old_items[j]);
                        assert(crate::value::view_items(old_items, i as nat)[j] == ws.take(i as int)[j]);
                    }
                }
            }
        }
        proof {
            let xs = crate::value::view_items(old_items, i as nat);
            let w = v@;
            assert(crate::value::view_items(items, (i + 1) as nat) =~= xs.push(w)) by {
                crate::value::lemma_view_items_len(items, (i + 1) as nat);
                crate::value::lemma_view_items_len(old_items, i as nat);
                assert forall|j: int| 0 <= j < i implies items[j] == old_items[j] by {}
            }
            match parse_items(d, next as int, (len - i - 1) as nat) {
                Some((vs, e)) => {
                    assert(xs + (seq![w] + vs) =~= xs.push(w) + vs);
                },
                None => {},
            }
        }
        cur = next;
        i += 1;
    }
    proof {
        assert(crate::value::view_items(items, i as nat) + Seq::<Value>::empty() =~= crate::value::view_items(items, i as nat));
    }
    Ok((items, cur))
}

/// Decodes a list in any of its four forms.
fn decode_list(data: &[u8], pos: usize) -> (r: Result<(BoltValue, usize), BoltError>)
    requires
        pos < data@.len(),
        (0x90 <= data@[pos as int] <= 0x9F) || (LIST_8 <= data@[pos as int] <= LIST_32),
    ensures
        agrees(r, data@, pos as int),
        decode_outcome(data@, pos as int, r),
        forall|w: Value| #[trigger] encoded_at(data@, pos as int, w) ==> decodes_to(r, pos as int, w),
    decreases data@.len() - pos, 2nat,
{
    let ghost d = data@;
    let hdr = read_header(data, pos, TINY_LIST, LIST_8);
    let r = match hdr {
        Err(e) => Err(e),
        Ok((len, q)) => match decode_list_data(data, q, len) {
            Err(e) => Err(e),
            Ok((items, end)) => Ok((BoltValue::List(items), end)),
        },
    };
    proof {
        assert forall|w: Value| #[trigger] encoded_at(d, pos as int, w) implies decodes_to(r, pos as int, w) by {
            lemma_head(w);
            let ws = w->List_0;
            let h = size_header(TINY_LIST, LIST_8, ws.len());
            let body = enc_items(ws, ws.len());
            assert(enc(w) == h + body);
            lemma_split(d, pos as int, h, body);
            assert(header_at(d, pos as int, TINY_LIST, LIST_8, ws.len()));
            assert(items_at(d, pos + h.len(), ws.len(), ws));
        }
    }
    r
}

/// The encodings of the entries `es`, `n` of them, stand in `d` from `p` on.
pub open spec fn entries_at(d: Seq<u8>, p: int, n: nat, es: Seq<(Seq<char>, Value)>) -> bool {
    &&& es.len() == n
    &&& keys_unique(es)
    &&& encodable_entries(es, n)
    &&& sound_entries(es, n)
    &&& 0 <= p
    &&& p + enc_entries(es, n).len() <= d.len()
    &&& d.subrange(p, p + enc_entries(es, n).len()) == enc_entries(es, n)
}

proof fn lemma_enc_entries_prefix(s: Seq<(Seq<char>, Value)>, i: nat, n: nat)
    requires
        i <= n <= s.len(),
    ensures
        enc_entries(s, i).len() <= enc_entries(s, n).len(),
        enc_entries(s, n).subrange(0, enc_entries(s, i).len() as int) == enc_entries(s, i),
    decreases n - i,
{
    if i < n {
        lemma_enc_entries_prefix(s, i, (n - 1) as nat);
        assert(enc_entries(s, n).subrange(0, enc_entries(s, i).len() as int) =~= enc_entries(
            s,
            (n - 1) as nat,
        ).subrange(0, enc_entries(s, i).len() as int));
    } else {
        assert(enc_entries(s, n).subrange(0, enc_entries(s, i).len() as int) =~= enc_entries(s, i));
    }
}

proof fn lemma_entry_at(d: Seq<u8>, p: int, n: nat, es: Seq<(Seq<char>, Value)>, i: nat)
    requires
        entries_at(d, p, n, es),
        i < n,
    ensures
        encoded_at(d, p + enc_entries(es, i).len(), Value::Str(es[i as int].0)),
        encoded_at(d, p + enc_entries(es, i).len() + enc_str(es[i as int].0).len(), es[i as int].1),
        enc_entries(es, i + 1).len() == enc_entries(es, i).len() + enc_str(es[i as int].0).len() + enc(es[i as int].1).len(),
{
    lemma_enc_entries_prefix(es, i + 1, n);
    lemma_encodable_entries(es, n, i as int);
    lemma_sound_entries(es, n, i as int);
    let a = enc_entries(es, i);
    let k = enc_str(es[i as int].0);
    let b = enc(es[i as int].1);
    assert(enc_entries(es, i + 1) == a + k + b);
    assert(d.subrange(p, p + a.len() + k.len() + b.len()) =~= enc_entries(es, n).subrange(0, (a.len() + k.len() + b.len()) as int));
    lemma_split(d, p, a + k, b);
    lemma_split(d, p, a, k);
}

/// Decodes `len` key-value entries from `p`; a later entry with a key seen
/// before replaces the earlier value.
#[verifier::rlimit(100)]
fn decode_dict_data(data: &[u8], p: usize, len: usize) -> (r: Result<(BoltDict, usize), BoltError>)
    requires
        p <= data@.len(),
    ensures
        r is Ok ==> p <= r->Ok_0.1 <= data@.len(),
        r is Err ==> r->Err_0 is Protocol,
        forall|es: Seq<(Seq<char>, Value)>| #[trigger] entries_at(data@, p as int, len as nat, es) ==> r is Ok
            && r->Ok_0.0@ == es && r->Ok_0.1 == p + enc_entries(es, len as nat).len(),
        match parse_entries(data@, p as int, len as nat, Seq::empty()) {
            Some((es, e)) => r is Ok && r->Ok_0.0@ == es && r->Ok_0.1 == e,
            None => r is Err,
        },
    decreases data@.len() - p, 4nat,
{
    let ghost d = data@;
    let mut dict = BoltDict::new();
    let mut cur = p;
    let mut i: usize = 0;
    while i < len
        invariant
            d == data@,
            p <= cur <= data@.len(),
            i <= len,
            forall|es: Seq<(Seq<char>, Value)>| #[trigger] entries_at(d, p as int, len as nat, es) ==> dict@
                =~= es.take(i as int) && cur == p + enc_entries(es, i as nat).len(),
            parse_entries(d, p as int, len as nat, Seq::empty()) == parse_entries(d, cur as int, (len - i) as nat, dict@),
        decreases len - i,
    {
        let key_item = decode_value(data, cur);
        let (k, next) = match key_item {
            Ok(x) => x,
            Err(e) => {
                proof {
                    assert forall|es: Seq<(Seq<char>, Value)>| #[trigger] entries_at(d, p as int, len as nat, es) implies false by {
                        lemma_entry_at(d, p as int, len as nat, es, i as nat);
                    }
                }
                return Err(e);
            },
        };
        let key = match k {
            BoltValue::String(s) => s,
            _ => {
                proof {
                    assert forall|es: Seq<(Seq<char>, Value)>| #[trigger] entries_at(d, p as int, len as nat, es) implies false by {
                        lemma_entry_at(d, p as int, len as nat, es, i as nat);
                    }
                }
                return Err(protocol_error(KEY_NOT_STRING));
            },
        };
        let value_item = decode_value(data, next);
        let (v, next2) = match value_item {
            Ok(x) => x,
            Err(e) => {
                proof {
                    assert forall|es: Seq<(Seq<char>, Value)>| #[trigger] entries_at(d, p as int, len as nat, es) implies false by {
                        lemma_entry_at(d, p as int, len as nat, es, i as nat);
                    }
                }
                return Err(e);
            },
        };
        let ghost before = dict@;
        let ghost kv = key@;
        let ghost vv = v@;
        dict.insert(key, v);
        proof {
            assert forall|es: Seq<(Seq<char>, Value)>| #[trigger] entries_at(d, p as int, len as nat, es) implies dict@
                =~= es.take(i + 1) && next2 == p + enc_entries(es, (i + 1) as nat).len() by {
                lemma_entry_at(d, p as int, len as nat, es, i as nat);
                assert(kv == es[i as int].0);
                assert(vv == es[i as int].1);
                assert forall|j: int| 0 <= j < before.len() implies #[trigger] before[j].0 != kv by {
                    assert(before[j] == es[j]);
                }
                assert(dict@ == before.push((kv, vv)));
            }
        }
        cur = next2;
        i += 1;
    }
    Ok((dict, cur))
}

/// Decodes a dictionary in any of its four forms.
fn decode_dict(data: &[u8], pos: usize) -> (r: Result<(BoltValue, usize), BoltError>)
    requires
        pos < data@.len(),
        (0xA0 <= data@[pos as int] <= 0xAF) || (DICT_8 <= data@[pos as int] <= DICT_32),
    ensures
        agrees(r, data@, pos as int),
        decode_outcome(data@, pos as int, r),
        forall|w: Value| #[trigger] encoded_at(data@, pos as int, w) ==> decodes_to(r, pos as int, w),
    decreases data@.len() - pos, 2nat,
{
    let ghost d = data@;
    let hdr = read_header(data, pos, TINY_DICT, DICT_8);
    let r = match hdr {
        Err(e) => Err(e),
        Ok((len, q)) => match decode_dict_data(data, q, len) {
            Err(e) => Err(e),
            Ok((dict, end)) => Ok((BoltValue::Dict(dict), end)),
        },
    };
    proof {
        assert forall|w: Value| #[trigger] encoded_at(d, pos as int, w) implies decodes_to(r, pos as int, w) by {
            lemma_head(w);
            let es = w->Dict_0;
            let h = size_header(TINY_DICT, DICT_8, es.len());
            let body = enc_entries(es, es.len());
            assert(enc(w) == h + body);
            lemma_split(d, pos as int, h, body);
            assert(header_at(d, pos as int, TINY_DICT, DICT_8, es.len()));
            assert(entries_at(d, pos + h.len(), es.len(), es));
        }
    }
    r
}

fn require_int(v: BoltValue) -> (r: Result<i64, BoltError>)
    ensures
        v is Integer <==> r is Ok,
        r is Ok ==> r->Ok_0 == v->Integer_0,
        r is Err ==> r->Err_0 is Protocol,
{
    match v {
        BoltValue::Integer(i) => Ok(i),
        _ => Err(protocol_error("expected int")),
    }
}

fn require_float(v: BoltValue) -> (r: Result<u64, BoltError>)
    ensures
        v is Float <==> r is Ok,
        r is Ok ==> r->Ok_0 == v->Float_0,
        r is Err ==> r->Err_0 is Protocol,
{
    match v {
        BoltValue::Float(f) => Ok(f),
        _ => Err(protocol_error("expected float")),
    }
}

fn require_string(v: BoltValue) -> (r: Result<String, BoltError>)
    ensures
        v is String <==> r is Ok,
        r is Ok ==> r->Ok_0 == v->String_0,
        r is Err ==> r->Err_0 is Protocol,
{
    match v {
        BoltValue::String(s) => Ok(s),
        _ => Err(protocol_error("expected string")),
    }
}

fn require_dict(v: BoltValue) -> (r: Result<BoltDict, BoltError>)
    ensures
        v is Dict <==> r is Ok,
        r is Ok ==> r->Ok_0 == v->Dict_0,
        r is Err ==> r->Err_0 is Protocol,
{
    match v {
        BoltValue::Dict(d) => Ok(d),
        _ => Err(protocol_error("expected dict")),
    }
}

/// A list whose items are all strings.
pub open spec fn str_list(v: Value) -> bool {
    v is List && forall|j: int| 0 <= j < v->List_0.len() ==> #[trigger] v->List_0[j] is Str
}

/// A list whose items are all integers.
pub open spec fn int_list(v: Value) -> bool {
    v is List && forall|j: int| 0 <= j < v->List_0.len() ==> #[trigger] v->List_0[j] is Int
}

/// A list whose items are all structures with the given tag.
pub open spec fn tagged_list(v: Value, tag: u8) -> bool {
    v is List && forall|j: int|
        0 <= j < v->List_0.len() ==> (#[trigger] v->List_0[j] is Struct && v->List_0[j]->Struct_0
            == tag)
}

/// The fields a structure with this tag carries, by kind.
pub open spec fn struct_shape(tag: u8, fs: Seq<Value>) -> bool {
    if tag == TAG_NODE {
        fs.len() == 4 && fs[0] is Int && str_list(fs[1]) && fs[2] is Dict && fs[3] is Str
    } else if tag == TAG_RELATIONSHIP {
        fs.len() == 8 && fs[0] is Int && fs[1] is Int && fs[2] is Int && fs[3] is Str
            && fs[4] is Dict && fs[5] is Str && fs[6] is Str && fs[7] is Str
    } else if tag == TAG_UNBOUND_RELATIONSHIP {
        fs.len() == 4 && fs[0] is Int && fs[1] is Str && fs[2] is Dict && fs[3] is Str
    } else if tag == TAG_PATH {
        fs.len() == 3 && tagged_list(fs[0], TAG_NODE) && tagged_list(
            fs[1],
            TAG_UNBOUND_RELATIONSHIP,
        ) && int_list(fs[2])
    } else if tag == TAG_DATE || tag == TAG_LOCAL_TIME {
        fs.len() == 1 && fs[0] is Int
    } else if tag == TAG_TIME || tag == TAG_LOCAL_DATE_TIME {
        fs.len() == 2 && fs[0] is Int && fs[1] is Int
    } else if tag == TAG_DATE_TIME {
        fs.len() == 3 && fs[0] is Int && fs[1] is Int && fs[2] is Int
    } else if tag == TAG_DATE_TIME_ZONE_ID {
        fs.len() == 3 && fs[0] is Int && fs[1] is Int && fs[2] is Str
    } else if tag == TAG_DURATION {
        fs.len() == 4 && fs[0] is Int && fs[1] is Int && fs[2] is Int && fs[3] is Int
    } else if tag == TAG_POINT_2D {
        fs.len() == 3 && fs[0] is Int && fs[1] is Float && fs[2] is Float
    } else if tag == TAG_POINT_3D {
        fs.len() == 4 && fs[0] is Int && fs[1] is Float && fs[2] is Float && fs[3] is Float
    } else {
        false
    }
}

fn require_string_list(v: BoltValue) -> (r: Result<Vec<String>, BoltError>)
    ensures
        r is Err ==> r->Err_0 is Protocol,
        str_list(v@) ==> r is Ok && crate::value::str_items(r->Ok_0@) == v@->List_0,
        r is Ok ==> str_list(v@) && crate::value::str_items(r->Ok_0@) == v@->List_0,
{
    let ghost vv = v@;
    let items = match v {
        BoltValue::List(items) => items,
        _ => {
            return Err(protocol_error("expected string list"));
        },
    };
    let ghost n = items.len() as nat;
    proof {
        crate::value::lemma_view_items_len(items, n);
        assert(vv == Value::List(crate::value::view_items(items, n)));
    }
    let mut out: Vec<String> = Vec::new();
    let mut i: usize = 0;
    while i < items.len()
        invariant
            i <= items.len(),
            n == items.len(),
            out.len() == i,
            crate::value::view_items(items, n).len() == n,
            forall|j: int| 0 <= j < n ==> #[trigger] crate::value::view_items(items, n)[j] == items[j]@,
            forall|j: int| 0 <= j < i ==> Value::Str(#[trigger] out@[j]@) == items[j]@,
            vv == Value::List(crate::value::view_items(items, n)),
            vv == v@,
        decreases items.len() - i,
    {
        match &items[i] {
            BoltValue::String(s) => out.push(s.clone()),
            _ => {
                assert(!(crate::value::view_items(items, n)[i as int] is Str));
                assert(vv->List_0[i as int] == crate::value::view_items(items, n)[i as int]);
                assert(!str_list(vv));
                return Err(protocol_error("expected string"));
            },
        }
        i += 1;
    }
    assert(crate::value::str_items(out@) =~= crate::value::view_items(items, n));
    Ok(out)
}

/// Decodes the fields of a structure with the given tag. The fields of an
/// unknown structure are read and dropped before the error, so that the
/// rest of the message stays readable.
fn decode_struct(data: &[u8], p: usize, tag: u8, field_count: usize) -> (r: Result<(BoltValue, usize), BoltError>)
    requires
        2 <= p <= data@.len(),
    ensures
        match parse_items(data@, p as int, field_count as nat) {
            Some((fs, e)) => match build(tag, fs) {
                Some(v) => r is Ok && r->Ok_0.0@ == v && r->Ok_0.1 == e,
                None => r is Err,
            },
            None => r is Err,
        },
        decode_outcome(data@, p - 2, r),
        forall|fs: Seq<Value>|
            struct_shape(tag, fs) && #[trigger] items_at(data@, p as int, field_count as nat, fs)
                ==> r is Ok && r->Ok_0.0@ == Value::Struct(tag, fs) && r->Ok_0.1 == p + enc_items(
                fs,
                field_count as nat,
            ).len(),
    decreases data@.len() - p, 5nat,
{
    let ghost d = data@;
    let (fields, end) = match decode_list_data(data, p, field_count) {
        Ok(x) => x,
        Err(e) => {
            return Err(e);
        },
    };
    let known = tag == TAG_NODE || tag == TAG_RELATIONSHIP || tag == TAG_UNBOUND_RELATIONSHIP
        || tag == TAG_PATH || tag == TAG_DATE || tag == TAG_TIME || tag == TAG_LOCAL_TIME
        || tag == TAG_DATE_TIME || tag == TAG_DATE_TIME_ZONE_ID || tag == TAG_LOCAL_DATE_TIME
        || tag == TAG_DURATION || tag == TAG_POINT_2D || tag == TAG_POINT_3D;
    if !known {
        return Err(protocol_error("unknown struct tag"));
    }
    let r = match build_struct(tag, fields) {
        Ok(v) => Ok((v, end)),
        Err(e) => Err(e),
    };
    proof {
        assert forall|fs: Seq<Value>|
            struct_shape(tag, fs) && #[trigger] items_at(data@, p as int, field_count as nat, fs)
                implies r is Ok && r->Ok_0.0@ == Value::Struct(tag, fs) && r->Ok_0.1 == p + enc_items(
                fs,
                field_count as nat,
            ).len() by {
            lemma_build_full(tag, fs);
        }
    }
    r
}

/// Builds the value of a known structure from its decoded fields.
fn build_struct(tag: u8, fields: Vec<BoltValue>) -> (r: Result<BoltValue, BoltError>)
    ensures
        match build(tag, crate::value::view_items(fields, fields.len() as nat)) {
            Some(v) => r is Ok && r->Ok_0@ == v,
            None => r is Err,
        },
        r is Err ==> r->Err_0 is Protocol,
{
    proof {
        crate::value::lemma_view_items_len(fields, fields.len() as nat);
    }
    if tag == TAG_NODE {
        let n = build_node(fields)?;
        Ok(BoltValue::Node(n))
    } else if tag == TAG_UNBOUND_RELATIONSHIP {
        let u = build_unbound(fields)?;
        Ok(BoltValue::UnboundRelationship(u))
    } else if tag == TAG_RELATIONSHIP {
        build_relationship(fields)
    } else if tag == TAG_PATH {
        build_path(fields)
    } else {
        build_plain(tag, fields)
    }
}

fn build_node(fields: Vec<BoltValue>) -> (r: Result<BoltNode, BoltError>)
    ensures
        r is Err ==> r->Err_0 is Protocol,
        match build(TAG_NODE, crate::value::view_items(fields, fields.len() as nat)) {
            Some(v) => r is Ok && crate::value::view_node(r->Ok_0) == v,
            None => r is Err,
        },
{
    let ghost fv = crate::value::view_items(fields, fields.len() as nat);
    let ghost orig = fields;
    proof {
        crate::value::lemma_view_items_len(fields, fields.len() as nat);
    }
    let count = fields.len();
    if count < 3 {
        return Err(protocol_error("node needs at least 3 fields"));
    }
    let mut fields = fields;
    let f0 = fields.remove(0);
    let f1 = fields.remove(0);
    let f2 = fields.remove(0);
    assert(f0 == orig[0] && f1 == orig[1] && f2 == orig[2]);
    let id = require_int(f0)?;
    let labels = require_string_list(f1)?;
    let properties = require_dict(f2)?;
    let element_id = if count >= 4 {
        let f3 = fields.remove(0);
        assert(f3 == orig[3]);
        require_string(f3)?
    } else {
        crate::value::decimal_string(id)
    };
    let node = BoltNode { id, labels, properties, element_id };
    proof {
        if struct_shape(TAG_NODE, fv) {
            assert(crate::value::view_node(node)->Struct_1 =~= fv);
        }
    }
    Ok(node)
}

fn build_unbound(fields: Vec<BoltValue>) -> (r: Result<BoltUnboundRelationship, BoltError>)
    ensures
        r is Err ==> r->Err_0 is Protocol,
        match build(TAG_UNBOUND_RELATIONSHIP, crate::value::view_items(fields, fields.len() as nat)) {
            Some(v) => r is Ok && crate::value::view_unbound(r->Ok_0) == v,
            None => r is Err,
        },
{
    let ghost fv = crate::value::view_items(fields, fields.len() as nat);
    let ghost orig = fields;
    proof {
        crate::value::lemma_view_items_len(fields, fields.len() as nat);
    }
    let count = fields.len();
    if count < 3 {
        return Err(protocol_error("relationship needs at least 3 fields"));
    }
    let mut fields = fields;
    let f0 = fields.remove(0);
    let f1 = fields.remove(0);
    let f2 = fields.remove(0);
    assert(f0 == orig[0] && f1 == orig[1] && f2 == orig[2]);
    let id = require_int(f0)?;
    let rel_type = require_string(f1)?;
    let properties = require_dict(f2)?;
    let element_id = if count >= 4 {
        let f3 = fields.remove(0);
        assert(f3 == orig[3]);
        require_string(f3)?
    } else {
        crate::value::decimal_string(id)
    };
    let rel = BoltUnboundRelationship { id, rel_type, properties, element_id };
    proof {
        if struct_shape(TAG_UNBOUND_RELATIONSHIP, fv) {
            assert(crate::value::view_unbound(rel)->Struct_1 =~= fv);
        }
    }
    Ok(rel)
}

fn build_relationship(fields: Vec<BoltValue>) -> (r: Result<BoltValue, BoltError>)
    ensures
        r is Err ==> r->Err_0 is Protocol,
        match build(TAG_RELATIONSHIP, crate::value::view_items(fields, fields.len() as nat)) {
            Some(v) => r is Ok && r->Ok_0@ == v,
            None => r is Err,
        },
{
    let ghost fv = crate::value::view_items(fields, fields.len() as nat);
    let ghost orig = fields;
    proof {
        crate::value::lemma_view_items_len(fields, fields.len() as nat);
    }
    let count = fields.len();
    if count < 5 {
        return Err(protocol_error("relationship needs at least 5 fields"));
    }
    let mut fields = fields;
    let f0 = fields.remove(0);
    let f1 = fields.remove(0);
    let f2 = fields.remove(0);
    let f3 = fields.remove(0);
    let f4 = fields.remove(0);
    assert(f0 == orig[0] && f1 == orig[1] && f2 == orig[2] && f3 == orig[3] && f4 == orig[4]);
    let id = require_int(f0)?;
    let start_node_id = require_int(f1)?;
    let end_node_id = require_int(f2)?;
    let rel_type = require_string(f3)?;
    let properties = require_dict(f4)?;
    let (element_id, start_element_id, end_element_id) = if count >= 8 {
        let f5 = fields.remove(0);
        let f6 = fields.remove(0);
        let f7 = fields.remove(0);
        assert(f5 == orig[5] && f6 == orig[6] && f7 == orig[7]);
        (require_string(f5)?, require_string(f6)?, require_string(f7)?)
    } else {
        (crate::value::decimal_string(id), crate::value::decimal_string(start_node_id), crate::value::decimal_string(end_node_id))
    };
    let v = BoltValue::Relationship(
        BoltRelationship {
            id,
            start_node_id,
            end_node_id,
            rel_type,
            properties,
            element_id,
            start_element_id,
            end_element_id,
        },
    );
    proof {
        if count >= 8 {
            assert(v@->Struct_1 =~= fv.take(8));
        } else {
            assert(v@->Struct_1 =~= fv.take(5) + seq![id_text(fv[0]), id_text(fv[1]), id_text(fv[2])]);
        }
    }
    Ok(v)
}

fn build_path(fields: Vec<BoltValue>) -> (r: Result<BoltValue, BoltError>)
    ensures
        r is Err ==> r->Err_0 is Protocol,
        match build(TAG_PATH, crate::value::view_items(fields, fields.len() as nat)) {
            Some(v) => r is Ok && r->Ok_0@ == v,
            None => r is Err,
        },
{
    let ghost fv = crate::value::view_items(fields, fields.len() as nat);
    let ghost orig = fields;
    proof {
        crate::value::lemma_view_items_len(fields, fields.len() as nat);
    }
    if fields.len() < 3 {
        return Err(protocol_error("path needs 3 fields"));
    }
    let mut fields = fields;
    let f0 = fields.remove(0);
    let f1 = fields.remove(0);
    let f2 = fields.remove(0);
    assert(f0 == orig[0] && f1 == orig[1] && f2 == orig[2]);
    let nodes = match f0 {
        BoltValue::List(items) => collect_nodes(items)?,
        _ => {
            return Err(protocol_error("path nodes must be a list"));
        },
    };
    let rels = match f1 {
        BoltValue::List(items) => collect_unbounds(items)?,
        _ => {
            return Err(protocol_error("path rels must be a list"));
        },
    };
    let indices = match f2 {
        BoltValue::List(items) => collect_ints(items)?,
        _ => {
            return Err(protocol_error("path indices must be a list"));
        },
    };
    let v = BoltValue::Path(BoltPath { nodes, rels, indices });
    proof {
        assert(v@->Struct_1 =~= fv.take(3));
    }
    Ok(v)
}

fn collect_nodes(items: Vec<BoltValue>) -> (r: Result<Vec<BoltNode>, BoltError>)
    ensures
        r is Err ==> r->Err_0 is Protocol,
        tagged_list(Value::List(crate::value::view_items(items, items.len() as nat)), TAG_NODE) ==> r is Ok
            && crate::value::view_nodes(r->Ok_0, r->Ok_0.len() as nat) == crate::value::view_items(items, items.len() as nat),
        r is Ok ==> tagged_list(Value::List(crate::value::view_items(items, items.len() as nat)), TAG_NODE)
            && crate::value::view_nodes(r->Ok_0, r->Ok_0.len() as nat) == crate::value::view_items(items, items.len() as nat),
{
    let ghost orig = items;
    let ghost n = items.len() as nat;
    proof {
        crate::value::lemma_view_items_len(items, n);
    }
    let mut rest = items;
    let mut out: Vec<BoltNode> = Vec::new();
    while rest.len() > 0
        invariant
            out.len() + rest.len() == n,
            n == orig.len(),
            orig == items,
            rest@ == orig@.skip(out.len() as int),
            forall|j: int| 0 <= j < out.len() ==> crate::value::view_node(#[trigger] out[j]) == orig[j]@,
            crate::value::view_items(orig, n).len() == n,
            forall|j: int| 0 <= j < n ==> #[trigger] crate::value::view_items(orig, n)[j] == orig[j]@,
        decreases rest.len(),
    {
        let ghost k = out.len() as int;
        let v = rest.remove(0);
        assert(v == orig[k]);
        match v {
            BoltValue::Node(node) => out.push(node),
            _ => {
                proof {
                    let vl = Value::List(crate::value::view_items(orig, n));
                    assert(vl->List_0[k] == crate::value::view_items(orig, n)[k]);
                    assert(!(vl->List_0[k] is Struct && vl->List_0[k]->Struct_0 == TAG_NODE));
                    assert(!tagged_list(vl, TAG_NODE));
                }
                return Err(protocol_error("path nodes must be Node"));
            },
        }
        assert(rest@ =~= orig@.skip(out.len() as int));
    }
    proof {
        crate::packstream::lemma_view_nodes(out, out.len() as nat);
        assert(crate::value::view_nodes(out, out.len() as nat) =~= crate::value::view_items(orig, n));
    }
    Ok(out)
}

fn collect_unbounds(items: Vec<BoltValue>) -> (r: Result<Vec<BoltUnboundRelationship>, BoltError>)
    ensures
        r is Err ==> r->Err_0 is Protocol,
        tagged_list(Value::List(crate::value::view_items(items, items.len() as nat)), TAG_UNBOUND_RELATIONSHIP) ==> r is Ok
            && crate::value::view_unbounds(r->Ok_0, r->Ok_0.len() as nat) == crate::value::view_items(items, items.len() as nat),
        r is Ok ==> tagged_list(Value::List(crate::value::view_items(items, items.len() as nat)), TAG_UNBOUND_RELATIONSHIP)
            && crate::value::view_unbounds(r->Ok_0, r->Ok_0.len() as nat) == crate::value::view_items(items, items.len() as nat),
{
    let ghost orig = items;
    let ghost n = items.len() as nat;
    proof {
        crate::value::lemma_view_items_len(items, n);
    }
    let mut rest = items;
    let mut out: Vec<BoltUnboundRelationship> = Vec::new();
    while rest.len() > 0
        invariant
            out.len() + rest.len() == n,
            n == orig.len(),
            orig == items,
            rest@ == orig@.skip(out.len() as int),
            forall|j: int| 0 <= j < out.len() ==> crate::value::view_unbound(#[trigger] out[j]) == orig[j]@,
            crate::value::view_items(orig, n).len() == n,
            forall|j: int| 0 <= j < n ==> #[trigger] crate::value::view_items(orig, n)[j] == orig[j]@,
        decreases rest.len(),
    {
        let ghost k = out.len() as int;
        let v = rest.remove(0);
        assert(v == orig[k]);
        match v {
            BoltValue::UnboundRelationship(rel) => out.push(rel),
            _ => {
                proof {
                    let vl = Value::List(crate::value::view_items(orig, n));
                    assert(vl->List_0[k] == crate::value::view_items(orig, n)[k]);
                    assert(!(vl->List_0[k] is Struct && vl->List_0[k]->Struct_0 == TAG_UNBOUND_RELATIONSHIP));
                    assert(!tagged_list(vl, TAG_UNBOUND_RELATIONSHIP));
                }
                return Err(protocol_error("path rels must be UnboundRelationship"));
            },
        }
        assert(rest@ =~= orig@.skip(out.len() as int));
    }
    proof {
        crate::packstream::lemma_view_unbounds(out, out.len() as nat);
        assert(crate::value::view_unbounds(out, out.len() as nat) =~= crate::value::view_items(orig, n));
    }
    Ok(out)
}

fn collect_ints(items: Vec<BoltValue>) -> (r: Result<Vec<i64>, BoltError>)
    ensures
        r is Err ==> r->Err_0 is Protocol,
        int_list(Value::List(crate::value::view_items(items, items.len() as nat))) ==> r is Ok
            && crate::value::int_items(r->Ok_0@) == crate::value::view_items(items, items.len() as nat),
        r is Ok ==> int_list(Value::List(crate::value::view_items(items, items.len() as nat)))
            && crate::value::int_items(r->Ok_0@) == crate::value::view_items(items, items.len() as nat),
{
    let ghost n = items.len() as nat;
    proof {
        crate::value::lemma_view_items_len(items, n);
    }
    let mut out: Vec<i64> = Vec::new();
    let mut i: usize = 0;
    while i < items.len()
        invariant
            i <= items.len(),
            n == items.len(),
            out.len() == i,
            crate::value::view_items(items, n).len() == n,
            forall|j: int| 0 <= j < n ==> #[trigger] crate::value::view_items(items, n)[j] == items[j]@,
            forall|j: int| 0 <= j < i ==> Value::Int(#[trigger] out@[j]) == items[j]@,
        decreases items.len() - i,
    {
        match &items[i] {
            BoltValue::Integer(x) => out.push(*x),
            _ => {
                assert(!(crate::value::view_items(items, n)[i as int] is Int));
                return Err(protocol_error("path indices must be integers"));
            },
        }
        i += 1;
    }
    assert(crate::value::int_items(out@) =~= crate::value::view_items(items, n));
    Ok(out)
}

/// Builds a temporal or spatial value: fields that are integers, floats
/// and, for a zoned date-time, a string.
#[verifier::rlimit(100)]
fn build_plain(tag: u8, fields: Vec<BoltValue>) -> (r: Result<BoltValue, BoltError>)
    requires
        tag != TAG_NODE && tag != TAG_RELATIONSHIP && tag != TAG_UNBOUND_RELATIONSHIP && tag != TAG_PATH,
    ensures
        r is Err ==> r->Err_0 is Protocol,
        match build(tag, crate::value::view_items(fields, fields.len() as nat)) {
            Some(v) => r is Ok && r->Ok_0@ == v,
            None => r is Err,
        },
{
    let ghost fv = crate::value::view_items(fields, fields.len() as nat);
    let ghost orig = fields;
    proof {
        crate::value::lemma_view_items_len(fields, fields.len() as nat);
    }
    let need: usize = if tag == TAG_DATE || tag == TAG_LOCAL_TIME {
        1
    } else if tag == TAG_TIME || tag == TAG_LOCAL_DATE_TIME {
        2
    } else if tag == TAG_DATE_TIME || tag == TAG_DATE_TIME_ZONE_ID || tag == TAG_POINT_2D {
        3
    } else if tag == TAG_DURATION || tag == TAG_POINT_3D {
        4
    } else {
        return Err(protocol_error("unknown struct tag"));
    };
    if fields.len() < need {
        return Err(protocol_error("structure has too few fields"));
    }
    let mut fields = fields;
    let f0 = fields.remove(0);
    assert(f0 == orig[0]);
    let a = require_int(f0)?;
    let v = if tag == TAG_DATE {
        BoltValue::Date(BoltDate { days: a })
    } else if tag == TAG_LOCAL_TIME {
        BoltValue::LocalTime(BoltLocalTime { nanoseconds: a })
    } else if tag == TAG_POINT_2D || tag == TAG_POINT_3D {
        let f1 = fields.remove(0);
        let f2 = fields.remove(0);
        assert(f1 == orig[1] && f2 == orig[2]);
        let x = require_float(f1)?;
        let y = require_float(f2)?;
        if tag == TAG_POINT_2D {
            BoltValue::Point2D(BoltPoint2D { srid: a, x, y })
        } else {
            let f3 = fields.remove(0);
            assert(f3 == orig[3]);
            let z = require_float(f3)?;
            BoltValue::Point3D(BoltPoint3D { srid: a, x, y, z })
        }
    } else {
        let f1 = fields.remove(0);
        assert(f1 == orig[1]);
        let b = require_int(f1)?;
        if tag == TAG_TIME {
            BoltValue::Time(BoltTime { nanoseconds: a, tz_offset_seconds: b })
        } else if tag == TAG_LOCAL_DATE_TIME {
            BoltValue::LocalDateTime(BoltLocalDateTime { seconds: a, nanoseconds: b })
        } else if tag == TAG_DATE_TIME_ZONE_ID {
            let f2 = fields.remove(0);
            assert(f2 == orig[2]);
            let tz_id = require_string(f2)?;
            BoltValue::DateTimeZoneId(BoltDateTimeZoneId { seconds: a, nanoseconds: b, tz_id })
        } else {
            let f2 = fields.remove(0);
            assert(f2 == orig[2]);
            let c = require_int(f2)?;
            if tag == TAG_DATE_TIME {
                BoltValue::DateTime(BoltDateTime { seconds: a, nanoseconds: b, tz_offset_seconds: c })
            } else {
                let f3 = fields.remove(0);
                assert(f3 == orig[3]);
                let e = require_int(f3)?;
                BoltValue::Duration(BoltDuration { months: a, days: b, seconds: c, nanoseconds: e })
            }
        }
    };
    proof {
        assert(v@->Struct_1 =~= fv.take(need as int));
        assert(need as int == plain_field_count(tag));
    }
    Ok(v)
}

} // verus!
