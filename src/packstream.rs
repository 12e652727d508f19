//! PackStream: the binary value format of Bolt, big-endian, each value
//! introduced by a marker byte. The encoder always picks the smallest form.
use vstd::bytes::*;
use vstd::prelude::*;
use vstd::utf8::encode_utf8;

use crate::value::{
    lemma_dict_view, lemma_list_view, str_items, view_entries, view_items, view_node,
    view_nodes, view_unbound, view_unbounds, int_items, BoltDict, BoltNode,
    BoltUnboundRelationship, BoltValue, Value, TAG_DATE, TAG_DATE_TIME, TAG_DATE_TIME_ZONE_ID,
    TAG_DURATION, TAG_LOCAL_DATE_TIME, TAG_LOCAL_TIME, TAG_NODE, TAG_PATH, TAG_POINT_2D,
    TAG_POINT_3D, TAG_RELATIONSHIP, TAG_TIME, TAG_UNBOUND_RELATIONSHIP,
};

verus! {

pub const NULL: u8 = 0xC0;
pub const FLOAT_64: u8 = 0xC1;
pub const FALSE: u8 = 0xC2;
pub const TRUE: u8 = 0xC3;
pub const INT_8: u8 = 0xC8;
pub const INT_16: u8 = 0xC9;
pub const INT_32: u8 = 0xCA;
pub const INT_64: u8 = 0xCB;
pub const BYTES_8: u8 = 0xCC;
pub const BYTES_16: u8 = 0xCD;
pub const BYTES_32: u8 = 0xCE;
pub const STRING_8: u8 = 0xD0;
pub const STRING_16: u8 = 0xD1;
pub const STRING_32: u8 = 0xD2;
pub const LIST_8: u8 = 0xD4;
pub const LIST_16: u8 = 0xD5;
pub const LIST_32: u8 = 0xD6;
pub const DICT_8: u8 = 0xD8;
pub const DICT_16: u8 = 0xD9;
pub const DICT_32: u8 = 0xDA;
pub const TINY_STRING: u8 = 0x80;
pub const TINY_LIST: u8 = 0x90;
pub const TINY_DICT: u8 = 0xA0;
pub const TINY_STRUCT: u8 = 0xB0;

pub open spec fn be16(x: u16) -> Seq<u8> {
    let le = spec_u16_to_le_bytes(x);
    seq![le[1], le[0]]
}

pub open spec fn be32(x: u32) -> Seq<u8> {
    let le = spec_u32_to_le_bytes(x);
    seq![le[3], le[2], le[1], le[0]]
}

pub open spec fn be64(x: u64) -> Seq<u8> {
    let le = spec_u64_to_le_bytes(x);
    seq![le[7], le[6], le[5], le[4], le[3], le[2], le[1], le[0]]
}

/// The two's complement of `i` on `width` bits, as an unsigned number.
pub open spec fn twos(i: int, width: nat) -> nat {
    if i < 0 {
        (i + pow2(width)) as nat
    } else {
        i as nat
    }
}

pub open spec fn pow2(width: nat) -> int {
    if width == 8 {
        0x100
    } else if width == 16 {
        0x10000
    } else if width == 32 {
        0x1_0000_0000
    } else {
        0x1_0000_0000_0000_0000
    }
}

/// The width, in bits, of the smallest form that holds `i`
/// (0 stands for the one-byte tiny form).
pub open spec fn int_width(i: i64) -> nat {
    if -16 <= i <= 127 {
        0
    } else if -0x80 <= i <= 0x7F {
        8
    } else if -0x8000 <= i <= 0x7FFF {
        16
    } else if -0x8000_0000 <= i <= 0x7FFF_FFFF {
        32
    } else {
        64
    }
}

/// The PackStream encoding of an integer.
pub open spec fn enc_int(i: i64) -> Seq<u8> {
    let w = int_width(i);
    if w == 0 {
        seq![twos(i as int, 8) as u8]
    } else if w == 8 {
        seq![INT_8, twos(i as int, 8) as u8]
    } else if w == 16 {
        seq![INT_16] + be16(twos(i as int, 16) as u16)
    } else if w == 32 {
        seq![INT_32] + be32(twos(i as int, 32) as u32)
    } else {
        seq![INT_64] + be64(twos(i as int, 64) as u64)
    }
}

/// The header of a string, list or dictionary of `len` elements: the tiny
/// marker with the length in its low nibble, else the 8-, 16- or 32-bit form.
pub open spec fn size_header(tiny: u8, marker8: u8, len: nat) -> Seq<u8> {
    if len <= 15 {
        seq![(tiny + len) as u8]
    } else if len <= 0xFF {
        seq![marker8, len as u8]
    } else if len <= 0xFFFF {
        seq![(marker8 + 1) as u8] + be16(len as u16)
    } else {
        seq![(marker8 + 2) as u8] + be32(len as u32)
    }
}

/// The header of a byte array (which has no tiny form).
pub open spec fn bytes_header(len: nat) -> Seq<u8> {
    if len <= 0xFF {
        seq![BYTES_8, len as u8]
    } else if len <= 0xFFFF {
        seq![BYTES_16] + be16(len as u16)
    } else {
        seq![BYTES_32] + be32(len as u32)
    }
}

/// The encoder picks the smallest form: an integer's first byte is the
/// marker of the narrowest width that holds it, and a string, list or
/// dictionary of up to 15 elements takes the tiny form, up to 255 the 8-bit
/// form, up to 65535 the 16-bit form, else the 32-bit form.
pub proof fn lemma_smallest_form(i: i64, tiny: u8, marker8: u8, n: nat)
    ensures
        -16 <= i <= 127 ==> enc_int(i).len() == 1,
        (-0x80 <= i < -16) ==> enc_int(i)[0] == INT_8 && enc_int(i).len() == 2,
        (-0x8000 <= i < -0x80 || 0x80 <= i <= 0x7FFF) ==> enc_int(i)[0] == INT_16 && enc_int(i).len() == 3,
        (-0x8000_0000 <= i < -0x8000 || 0x8000 <= i <= 0x7FFF_FFFF) ==> enc_int(i)[0] == INT_32
            && enc_int(i).len() == 5,
        (i < -0x8000_0000 || 0x7FFF_FFFF < i) ==> enc_int(i)[0] == INT_64 && enc_int(i).len() == 9,
        n <= 15 ==> size_header(tiny, marker8, n) == seq![(tiny + n) as u8],
        16 <= n <= 0xFF ==> size_header(tiny, marker8, n)[0] == marker8,
        0x100 <= n <= 0xFFFF ==> size_header(tiny, marker8, n)[0] == (marker8 + 1) as u8,
        0x10000 <= n ==> size_header(tiny, marker8, n)[0] == (marker8 + 2) as u8,
{
    let le16 = spec_u16_to_le_bytes(twos(i as int, 16) as u16);
    let le32 = spec_u32_to_le_bytes(twos(i as int, 32) as u32);
    let le64 = spec_u64_to_le_bytes(twos(i as int, 64) as u64);
    lemma_auto_spec_u16_to_from_le_bytes();
    lemma_auto_spec_u32_to_from_le_bytes();
    lemma_auto_spec_u64_to_from_le_bytes();
    assert(le16.len() == 2 && le32.len() == 4 && le64.len() == 8);
}

pub open spec fn enc_str(s: Seq<char>) -> Seq<u8> {
    size_header(TINY_STRING, STRING_8, encode_utf8(s).len()) + encode_utf8(s)
}

/// The PackStream encoding of a value.
pub open spec fn enc(v: Value) -> Seq<u8>
    decreases v, 0nat,
{
    match v {
        Value::Null => seq![NULL],
        Value::Bool(b) => seq![if b { TRUE } else { FALSE }],
        Value::Int(i) => enc_int(i),
        Value::Float(bits) => seq![FLOAT_64] + be64(bits),
        Value::Str(s) => enc_str(s),
        Value::Bytes(b) => bytes_header(b.len()) + b,
        Value::List(items) => size_header(TINY_LIST, LIST_8, items.len()) + enc_items(
            items,
            items.len(),
        ),
        Value::Dict(entries) => size_header(TINY_DICT, DICT_8, entries.len()) + enc_entries(
            entries,
            entries.len(),
        ),
        Value::Struct(tag, fields) => seq![(TINY_STRUCT + fields.len()) as u8, tag] + enc_items(
            fields,
            fields.len(),
        ),
    }
}

/// The encodings of the first `n` items, one after the other.
pub open spec fn enc_items(s: Seq<Value>, n: nat) -> Seq<u8>
    decreases s, n,
{
    if n == 0 || n > s.len() {
        Seq::empty()
    } else {
        enc_items(s, (n - 1) as nat) + enc(s[n - 1])
    }
}

/// The first `n` entries, each as its key's encoding then its value's.
pub open spec fn enc_entries(s: Seq<(Seq<char>, Value)>, n: nat) -> Seq<u8>
    decreases s, n,
{
    if n == 0 || n > s.len() {
        Seq::empty()
    } else {
        enc_entries(s, (n - 1) as nat) + enc_str(s[n - 1].0) + enc(s[n - 1].1)
    }
}

/// Every size fits its header: strings, byte arrays, lists and
/// dictionaries below 2^32 elements, structures of at most 15 fields.
pub open spec fn encodable(v: Value) -> bool
    decreases v, 0nat,
{
    match v {
        Value::Str(s) => encode_utf8(s).len() <= 0xFFFF_FFFF,
        Value::Bytes(b) => b.len() <= 0xFFFF_FFFF,
        Value::List(items) => items.len() <= 0xFFFF_FFFF && encodable_items(items, items.len()),
        Value::Dict(entries) => entries.len() <= 0xFFFF_FFFF && encodable_entries(
            entries,
            entries.len(),
        ),
        Value::Struct(_, fields) => fields.len() <= 15 && encodable_items(fields, fields.len()),
        _ => true,
    }
}

pub open spec fn encodable_items(s: Seq<Value>, n: nat) -> bool
    decreases s, n,
{
    if n == 0 || n > s.len() {
        true
    } else {
        encodable_items(s, (n - 1) as nat) && encodable(s[n - 1])
    }
}

pub open spec fn encodable_entries(s: Seq<(Seq<char>, Value)>, n: nat) -> bool
    decreases s, n,
{
    if n == 0 || n > s.len() {
        true
    } else {
        encodable_entries(s, (n - 1) as nat) && encode_utf8(s[n - 1].0).len() <= 0xFFFF_FFFF
            && encodable(s[n - 1].1)
    }
}

pub proof fn lemma_encodable_items(s: Seq<Value>, n: nat, i: int)
    requires
        encodable_items(s, n),
        n <= s.len(),
        0 <= i < n,
    ensures
        encodable(s[i]),
    decreases n,
{
    if i < n - 1 {
        lemma_encodable_items(s, (n - 1) as nat, i);
    }
}

pub proof fn lemma_encodable_entries(s: Seq<(Seq<char>, Value)>, n: nat, i: int)
    requires
        encodable_entries(s, n),
        n <= s.len(),
        0 <= i < n,
    ensures
        encodable(s[i].1),
        encode_utf8(s[i].0).len() <= 0xFFFF_FFFF,
    decreases n,
{
    if i < n - 1 {
        lemma_encodable_entries(s, (n - 1) as nat, i);
    }
}

/// The fields of a structure are encoded one after the other.
pub proof fn lemma_enc_fields(s: Seq<Value>)
    ensures
        s.len() == 1 ==> enc_items(s, 1) == enc(s[0]),
        s.len() == 2 ==> enc_items(s, 2) == enc(s[0]) + enc(s[1]),
        s.len() == 3 ==> enc_items(s, 3) == enc(s[0]) + enc(s[1]) + enc(s[2]),
        s.len() == 4 ==> enc_items(s, 4) == enc(s[0]) + enc(s[1]) + enc(s[2]) + enc(s[3]),
        s.len() == 8 ==> enc_items(s, 8) == enc(s[0]) + enc(s[1]) + enc(s[2]) + enc(s[3]) + enc(
            s[4],
        ) + enc(s[5]) + enc(s[6]) + enc(s[7]),
{
    reveal_with_fuel(enc_items, 9);
    assert(enc_items(s, 0) =~= Seq::<u8>::empty());
    if s.len() >= 1 {
        assert(enc_items(s, 1) =~= enc(s[0]));
    }
    if s.len() >= 2 {
        assert(enc_items(s, 2) =~= enc(s[0]) + enc(s[1]));
    }
    if s.len() >= 3 {
        assert(enc_items(s, 3) =~= enc(s[0]) + enc(s[1]) + enc(s[2]));
    }
    if s.len() >= 4 {
        assert(enc_items(s, 4) =~= enc(s[0]) + enc(s[1]) + enc(s[2]) + enc(s[3]));
    }
    if s.len() >= 8 {
        assert(enc_items(s, 5) =~= enc(s[0]) + enc(s[1]) + enc(s[2]) + enc(s[3]) + enc(s[4]));
        assert(enc_items(s, 6) =~= enc(s[0]) + enc(s[1]) + enc(s[2]) + enc(s[3]) + enc(s[4])
            + enc(s[5]));
        assert(enc_items(s, 7) =~= enc(s[0]) + enc(s[1]) + enc(s[2]) + enc(s[3]) + enc(s[4])
            + enc(s[5]) + enc(s[6]));
        assert(enc_items(s, 8) =~= enc(s[0]) + enc(s[1]) + enc(s[2]) + enc(s[3]) + enc(s[4])
            + enc(s[5]) + enc(s[6]) + enc(s[7]));
    }
}

pub proof fn lemma_encodable_fields(v: Value)
    requires
        encodable(v),
    ensures
        v is Struct ==> forall|i: int|
            0 <= i < v->Struct_1.len() ==> encodable(#[trigger] v->Struct_1[i]),
{
    if v is Struct {
        assert forall|i: int| 0 <= i < v->Struct_1.len() implies encodable(
            #[trigger] v->Struct_1[i],
        ) by {
            lemma_encodable_items(v->Struct_1, v->Struct_1.len(), i);
        }
    }
}

fn push_be16(buf: &mut Vec<u8>, x: u16)
    ensures
        final(buf)@ == old(buf)@ + be16(x),
{
    let le = u16_to_le_bytes(x);
    buf.push(le[1]);
    buf.push(le[0]);
    assert(final(buf)@ =~= old(buf)@ + be16(x));
}

fn push_be32(buf: &mut Vec<u8>, x: u32)
    ensures
        final(buf)@ == old(buf)@ + be32(x),
{
    let le = u32_to_le_bytes(x);
    buf.push(le[3]);
    buf.push(le[2]);
    buf.push(le[1]);
    buf.push(le[0]);
    assert(final(buf)@ =~= old(buf)@ + be32(x));
}

fn push_be64(buf: &mut Vec<u8>, x: u64)
    ensures
        final(buf)@ == old(buf)@ + be64(x),
{
    let le = u64_to_le_bytes(x);
    buf.push(le[7]);
    buf.push(le[6]);
    buf.push(le[5]);
    buf.push(le[4]);
    buf.push(le[3]);
    buf.push(le[2]);
    buf.push(le[1]);
    buf.push(le[0]);
    assert(final(buf)@ =~= old(buf)@ + be64(x));
}

pub fn encode_null(buf: &mut Vec<u8>)
    ensures
        final(buf)@ == old(buf)@ + enc(Value::Null),
{
    buf.push(NULL);
    assert(final(buf)@ =~= old(buf)@ + enc(Value::Null));
}

pub fn encode_bool(buf: &mut Vec<u8>, value: bool)
    ensures
        final(buf)@ == old(buf)@ + enc(Value::Bool(value)),
{
    buf.push(if value { TRUE } else { FALSE });
    assert(final(buf)@ =~= old(buf)@ + enc(Value::Bool(value)));
}

/// Appends an integer in the smallest PackStream form that holds it.
pub fn encode_int(buf: &mut Vec<u8>, value: i64)
    ensures
        final(buf)@ == old(buf)@ + enc(Value::Int(value)),
        final(buf)@ == old(buf)@ + enc_int(value),
{
    if -16 <= value && value <= 127 {
        let b: u8 = if value < 0 { (value + 256) as u8 } else { value as u8 };
        buf.push(b);
    } else if -0x80 <= value && value <= 0x7F {
        buf.push(INT_8);
        let b: u8 = if value < 0 { (value + 256) as u8 } else { value as u8 };
        buf.push(b);
    } else if -0x8000 <= value && value <= 0x7FFF {
        buf.push(INT_16);
        let x: u16 = if value < 0 { (value + 0x10000) as u16 } else { value as u16 };
        push_be16(buf, x);
    } else if -0x8000_0000 <= value && value <= 0x7FFF_FFFF {
        buf.push(INT_32);
        let x: u32 = if value < 0 { (value + 0x1_0000_0000) as u32 } else { value as u32 };
        push_be32(buf, x);
    } else {
        buf.push(INT_64);
        let x: u64 = if value < 0 {
            ((value + 0x7FFF_FFFF_FFFF_FFFF + 1) as u64) + 0x8000_0000_0000_0000
        } else {
            value as u64
        };
        push_be64(buf, x);
    }
    assert(final(buf)@ =~= old(buf)@ + enc_int(value));
}

/// Appends a float given by its IEEE-754 binary64 bit pattern.
pub fn encode_float(buf: &mut Vec<u8>, bits: u64)
    ensures
        final(buf)@ == old(buf)@ + enc(Value::Float(bits)),
{
    buf.push(FLOAT_64);
    push_be64(buf, bits);
    assert(final(buf)@ =~= old(buf)@ + enc(Value::Float(bits)));
}

fn encode_size_header(buf: &mut Vec<u8>, tiny: u8, marker8: u8, len: usize)
    requires
        len <= 0xFFFF_FFFF,
        tiny == TINY_STRING || tiny == TINY_LIST || tiny == TINY_DICT,
        marker8 == STRING_8 || marker8 == LIST_8 || marker8 == DICT_8,
    ensures
        final(buf)@ == old(buf)@ + size_header(tiny, marker8, len as nat),
{
    if len <= 15 {
        buf.push(tiny + len as u8);
    } else if len <= 0xFF {
        buf.push(marker8);
        buf.push(len as u8);
    } else if len <= 0xFFFF {
        buf.push(marker8 + 1);
        push_be16(buf, len as u16);
    } else {
        buf.push(marker8 + 2);
        push_be32(buf, len as u32);
    }
    assert(final(buf)@ =~= old(buf)@ + size_header(tiny, marker8, len as nat));
}

/// Appends a string: its size header, then its UTF-8 bytes.
pub fn encode_string(buf: &mut Vec<u8>, value: &str)
    requires
        encode_utf8(value@).len() <= 0xFFFF_FFFF,
    ensures
        final(buf)@ == old(buf)@ + enc_str(value@),
        final(buf)@ == old(buf)@ + enc(Value::Str(value@)),
{
    let bytes = value.as_bytes();
    encode_size_header(buf, TINY_STRING, STRING_8, bytes.len());
    let ghost mid = buf@;
    let mut i: usize = 0;
    while i < bytes.len()
        invariant
            i <= bytes.len(),
            buf@ == mid + bytes@.subrange(0, i as int),
        decreases bytes.len() - i,
    {
        buf.push(bytes[i]);
        i += 1;
        assert(buf@ =~= mid + bytes@.subrange(0, i as int));
    }
    assert(bytes@.subrange(0, bytes.len() as int) =~= bytes@);
    assert(final(buf)@ =~= old(buf)@ + enc_str(value@));
}

/// Appends a byte array: its size header, then the octets.
pub fn encode_bytes(buf: &mut Vec<u8>, value: &[u8])
    requires
        value@.len() <= 0xFFFF_FFFF,
    ensures
        final(buf)@ == old(buf)@ + enc(Value::Bytes(value@)),
{
    let len = value.len();
    if len <= 0xFF {
        buf.push(BYTES_8);
        buf.push(len as u8);
    } else if len <= 0xFFFF {
        buf.push(BYTES_16);
        push_be16(buf, len as u16);
    } else {
        buf.push(BYTES_32);
        push_be32(buf, len as u32);
    }
    let ghost mid = buf@;
    assert(mid =~= old(buf)@ + bytes_header(len as nat));
    let mut i: usize = 0;
    while i < len
        invariant
            i <= len,
            len == value@.len(),
            buf@ == mid + value@.subrange(0, i as int),
        decreases len - i,
    {
        buf.push(value[i]);
        i += 1;
        assert(buf@ =~= mid + value@.subrange(0, i as int));
    }
    assert(value@.subrange(0, len as int) =~= value@);
    assert(final(buf)@ =~= old(buf)@ + enc(Value::Bytes(value@)));
}


/// Appends a structure header: the tiny-structure marker holding the field
/// count, then the tag byte.
pub fn encode_struct_header(buf: &mut Vec<u8>, tag: u8, field_count: usize)
    requires
        field_count <= 15,
    ensures
        final(buf)@ == old(buf)@ + seq![(TINY_STRUCT + field_count) as u8, tag],
{
    buf.push(TINY_STRUCT + field_count as u8);
    buf.push(tag);
    assert(final(buf)@ =~= old(buf)@ + seq![(TINY_STRUCT + field_count) as u8, tag]);
}

/// A sequence of values is encodable exactly when each of them is.
pub proof fn lemma_encodable_items_all(s: Seq<Value>, n: nat)
    requires
        n <= s.len(),
    ensures
        encodable_items(s, n) <==> forall|i: int| 0 <= i < n ==> #[trigger] encodable(s[i]),
    decreases n,
{
    if n > 0 {
        lemma_encodable_items_all(s, (n - 1) as nat);
        if forall|i: int| 0 <= i < n ==> #[trigger] encodable(s[i]) {
            assert(forall|i: int| 0 <= i < n - 1 ==> #[trigger] encodable(s[i]));
            assert(encodable(s[n - 1]));
        }
    }
}

pub proof fn lemma_encodable_fields_n(s: Seq<Value>)
    ensures
        s.len() == 0 ==> encodable_items(s, 0),
        s.len() == 1 ==> (encodable_items(s, 1) == encodable(s[0])),
        s.len() == 3 ==> (encodable_items(s, 3) == (encodable(s[0]) && encodable(s[1]) && encodable(
            s[2],
        ))),
        s.len() == 8 ==> (encodable_items(s, 8) == (encodable(s[0]) && encodable(s[1]) && encodable(
            s[2],
        ) && encodable(s[3]) && encodable(s[4]) && encodable(s[5]) && encodable(s[6]) && encodable(
            s[7],
        ))),
{
    reveal_with_fuel(encodable_items, 9);
}

proof fn lemma_entries_not_encodable(s: Seq<(Seq<char>, Value)>, n: nat, i: int)
    requires
        0 <= i < n <= s.len(),
        !(encodable(s[i].1) && encode_utf8(s[i].0).len() <= 0xFFFF_FFFF),
    ensures
        !encodable_entries(s, n),
    decreases n,
{
    if i < n - 1 {
        lemma_entries_not_encodable(s, (n - 1) as nat, i);
    }
}

/// A sequence of entries is encodable exactly when each key and value is.
pub proof fn lemma_encodable_entries_all(s: Seq<(Seq<char>, Value)>, n: nat)
    requires
        n <= s.len(),
    ensures
        encodable_entries(s, n) <==> forall|i: int|
            0 <= i < n ==> #[trigger] encodable(s[i].1) && encode_utf8(s[i].0).len() <= 0xFFFF_FFFF,
    decreases n,
{
    if n > 0 {
        lemma_encodable_entries_all(s, (n - 1) as nat);
        if forall|i: int|
            0 <= i < n ==> #[trigger] encodable(s[i].1) && encode_utf8(s[i].0).len() <= 0xFFFF_FFFF {
            assert(forall|i: int|
                0 <= i < n - 1 ==> #[trigger] encodable(s[i].1) && encode_utf8(s[i].0).len()
                    <= 0xFFFF_FFFF);
            assert(encodable(s[n - 1].1));
        }
    }
}

pub fn str_encodable(s: &String) -> (r: bool)
    ensures
        r == (encode_utf8(s@).len() <= 0xFFFF_FFFF),
{
    s.as_str().as_bytes().len() <= 0xFFFF_FFFF
}

/// Whether every size in `value` fits its PackStream header, so that
/// `encode_value` may be called on it.
pub fn value_encodable(value: &BoltValue) -> (r: bool)
    ensures
        r == encodable(value@),
    decreases value, 1nat,
{
    proof {
        reveal_with_fuel(encodable_items, 9);
    }
    match value {
        BoltValue::String(s) => {
            let r = str_encodable(s);
            proof {
                assert(value@ == Value::Str(s@));
                assert(encodable(Value::Str(s@)) == (encode_utf8(s@).len() <= 0xFFFF_FFFF));
                assert(r == encodable(value@));
            }
            r
        },
        BoltValue::Bytes(b) => {
            let r = b.len() <= 0xFFFF_FFFF;
            assert(r == encodable(value@));
            r
        },
        BoltValue::List(items) => {
            let r = list_encodable(items);
            assert(r == encodable(value@));
            r
        },
        BoltValue::Dict(d) => {
            let r = dict_encodable(d);
            assert(r == encodable(value@));
            r
        },
        BoltValue::Node(n) => {
            let r = node_encodable(n);
            assert(r == encodable(value@));
            r
        },
        BoltValue::Relationship(r) => {
            proof {
                lemma_encodable_fields_n(value@->Struct_1);
            }
            let b = str_encodable(&r.rel_type) && dict_encodable(&r.properties) && str_encodable(
                &r.element_id,
            ) && str_encodable(&r.start_element_id) && str_encodable(&r.end_element_id);
            assert(b == encodable(value@));
            b
        },
        BoltValue::UnboundRelationship(r) => {
            let b = unbound_encodable(r);
            assert(b == encodable(value@));
            b
        },
        BoltValue::Path(p) => {
            proof {
                lemma_encodable_items_all(int_items(p.indices@), p.indices.len() as nat);
                assert forall|i: int| 0 <= i < p.indices.len() implies #[trigger] encodable(int_items(p.indices@)[i]) by {
                    assert(int_items(p.indices@)[i] == Value::Int(p.indices@[i]));
                }
            }
            proof {
                lemma_encodable_fields_n(value@->Struct_1);
            }
            let b = node_list_encodable(&p.nodes) && unbound_list_encodable(&p.rels)
                && p.indices.len() <= 0xFFFF_FFFF;
            assert(b == encodable(value@));
            b
        },
        BoltValue::DateTimeZoneId(t) => {
            proof {
                lemma_encodable_fields_n(value@->Struct_1);
            }
            let b = str_encodable(&t.tz_id);
            assert(b == encodable(value@));
            b
        },
        BoltValue::Null | BoltValue::Boolean(_) | BoltValue::Integer(_) | BoltValue::Float(_) => true,
        _ => {
            proof {
                lemma_plain_encodable(value@);
            }
            true
        },
    }
}

proof fn lemma_plain_encodable(v: Value)
    requires
        v is Struct,
        forall|i: int| 0 <= i < v->Struct_1.len() ==> (#[trigger] v->Struct_1[i] is Int || v->Struct_1[i] is Float),
        v->Struct_1.len() <= 4,
    ensures
        encodable(v),
{
    lemma_encodable_items_all(v->Struct_1, v->Struct_1.len());
}

fn node_encodable(n: &BoltNode) -> (r: bool)
    ensures
        r == encodable(view_node(*n)),
    decreases n, 0nat,
{
    let ghost labels = str_items(n.labels@);
    proof {
        lemma_encodable_items_all(view_node(*n)->Struct_1, 4);
        lemma_encodable_items_all(labels, n.labels.len() as nat);
    }
    let head = n.labels.len() <= 0xFFFF_FFFF && dict_encodable(&n.properties) && str_encodable(
        &n.element_id,
    );
    let mut i: usize = 0;
    while i < n.labels.len()
        invariant
            i <= n.labels.len(),
            labels == str_items(n.labels@),
            forall|j: int| 0 <= j < i ==> #[trigger] encodable(labels[j]),
            labels.len() == n.labels.len(),
        decreases n.labels.len() - i,
    {
        let this = str_encodable(&n.labels[i]);
        proof {
            assert(labels[i as int] == Value::Str(n.labels@[i as int]@));
        }
        if !this {
            proof {
                node_fields_facts(*n);
                assert(!encodable(labels[i as int]));
            }
            return false;
        }
        i += 1;
    }
    proof {
        node_fields_facts(*n);
    }
    head
}

proof fn node_fields_facts(n: BoltNode)
    ensures
        encodable(view_node(n)) ==> (encodable(Value::List(str_items(n.labels@))) && encodable(
            Value::Dict(n.properties@),
        ) && encode_utf8(n.element_id@).len() <= 0xFFFF_FFFF),
        (encodable(Value::List(str_items(n.labels@))) && encodable(
            Value::Dict(n.properties@),
        ) && encode_utf8(n.element_id@).len() <= 0xFFFF_FFFF) ==> encodable(view_node(n)),
        encodable(Value::List(str_items(n.labels@))) <==> (n.labels.len() <= 0xFFFF_FFFF
            && forall|j: int| 0 <= j < n.labels.len() ==> #[trigger] encodable(str_items(n.labels@)[j])),
{
    let fs = view_node(n)->Struct_1;
    lemma_encodable_items_all(fs, 4);
    lemma_encodable_items_all(str_items(n.labels@), n.labels.len() as nat);
    assert(fs.len() == 4);
    assert(view_node(n) == Value::Struct(TAG_NODE, fs));
    assert(encodable(view_node(n)) == (fs.len() <= 15 && encodable_items(fs, fs.len())));
    assert(encodable(view_node(n)) == encodable_items(fs, 4));
    assert(encodable(fs[0]));
    assert(fs[1] == Value::List(str_items(n.labels@)));
    assert(fs[2] == Value::Dict(n.properties@));
    assert(fs[3] == Value::Str(n.element_id@));
    if encodable(view_node(n)) {
        assert(encodable(fs[1]) && encodable(fs[2]) && encodable(fs[3]));
    }
    if encodable(Value::List(str_items(n.labels@))) && encodable(Value::Dict(n.properties@))
        && encode_utf8(n.element_id@).len() <= 0xFFFF_FFFF {
        assert forall|i: int| 0 <= i < 4 implies #[trigger] encodable(fs[i]) by {
            if i == 1 {
            } else if i == 2 {
            } else if i == 3 {
            }
        }
    }
}

proof fn unbound_fields_facts(r: BoltUnboundRelationship)
    ensures
        encodable(view_unbound(r)) <==> (encode_utf8(r.rel_type@).len() <= 0xFFFF_FFFF && encodable(
            Value::Dict(r.properties@),
        ) && encode_utf8(r.element_id@).len() <= 0xFFFF_FFFF),
{
    let fs = view_unbound(r)->Struct_1;
    lemma_encodable_items_all(fs, 4);
    assert(fs.len() == 4);
    assert(encodable(fs[0]));
    if encodable(view_unbound(r)) {
        assert(encodable(fs[1]) && encodable(fs[2]) && encodable(fs[3]));
    }
    if encode_utf8(r.rel_type@).len() <= 0xFFFF_FFFF && encodable(Value::Dict(r.properties@))
        && encode_utf8(r.element_id@).len() <= 0xFFFF_FFFF {
        assert forall|i: int| 0 <= i < 4 implies #[trigger] encodable(fs[i]) by {
            if i == 1 {
            } else if i == 2 {
            } else if i == 3 {
            }
        }
    }
    assert(fs[1] == Value::Str(r.rel_type@));
    assert(fs[2] == Value::Dict(r.properties@));
    assert(fs[3] == Value::Str(r.element_id@));
}

fn unbound_encodable(r: &BoltUnboundRelationship) -> (b: bool)
    ensures
        b == encodable(view_unbound(*r)),
    decreases r, 0nat,
{
    proof {
        unbound_fields_facts(*r);
    }
    str_encodable(&r.rel_type) && dict_encodable(&r.properties) && str_encodable(&r.element_id)
}

fn node_list_encodable(items: &Vec<BoltNode>) -> (r: bool)
    ensures
        r == encodable(Value::List(view_nodes(*items, items.len() as nat))),
    decreases items, 0nat,
{
    let ghost s = view_nodes(*items, items.len() as nat);
    proof {
        lemma_view_nodes(*items, items.len() as nat);
        lemma_encodable_items_all(s, s.len());
    }
    if items.len() > 0xFFFF_FFFF {
        return false;
    }
    let mut i: usize = 0;
    while i < items.len()
        invariant
            i <= items.len(),
            s == view_nodes(*items, items.len() as nat),
            s.len() == items.len(),
            forall|j: int| 0 <= j < items.len() ==> #[trigger] s[j] == view_node(items[j]),
            items.len() <= 0xFFFF_FFFF,
            forall|j: int| 0 <= j < i ==> #[trigger] encodable(s[j]),
        decreases items.len() - i,
    {
        let this = node_encodable(&items[i]);
        if !this {
            assert(!encodable(s[i as int]));
            proof {
                lemma_encodable_items_all(s, s.len());
            }
            return false;
        }
        i += 1;
    }
    proof {
        lemma_encodable_items_all(s, s.len());
    }
    true
}

fn unbound_list_encodable(items: &Vec<BoltUnboundRelationship>) -> (r: bool)
    ensures
        r == encodable(Value::List(view_unbounds(*items, items.len() as nat))),
    decreases items, 0nat,
{
    let ghost s = view_unbounds(*items, items.len() as nat);
    proof {
        lemma_view_unbounds(*items, items.len() as nat);
        lemma_encodable_items_all(s, s.len());
    }
    if items.len() > 0xFFFF_FFFF {
        return false;
    }
    let mut i: usize = 0;
    while i < items.len()
        invariant
            i <= items.len(),
            s == view_unbounds(*items, items.len() as nat),
            s.len() == items.len(),
            forall|j: int| 0 <= j < items.len() ==> #[trigger] s[j] == view_unbound(items[j]),
            items.len() <= 0xFFFF_FFFF,
            forall|j: int| 0 <= j < i ==> #[trigger] encodable(s[j]),
        decreases items.len() - i,
    {
        let this = unbound_encodable(&items[i]);
        if !this {
            assert(!encodable(s[i as int]));
            proof {
                lemma_encodable_items_all(s, s.len());
            }
            return false;
        }
        i += 1;
    }
    proof {
        lemma_encodable_items_all(s, s.len());
    }
    true
}

pub fn list_encodable(items: &Vec<BoltValue>) -> (r: bool)
    ensures
        r == encodable(Value::List(view_items(*items, items.len() as nat))),
    decreases items, 0nat,
{
    let ghost s = view_items(*items, items.len() as nat);
    proof {
        lemma_list_view(*items);
        lemma_encodable_items_all(s, s.len());
    }
    if items.len() > 0xFFFF_FFFF {
        return false;
    }
    let mut i: usize = 0;
    while i < items.len()
        invariant
            i <= items.len(),
            s == view_items(*items, items.len() as nat),
            s.len() == items.len(),
            forall|j: int| 0 <= j < items.len() ==> #[trigger] s[j] == view_value_of(items, j),
            items.len() <= 0xFFFF_FFFF,
            forall|j: int| 0 <= j < i ==> #[trigger] encodable(s[j]),
        decreases items.len() - i,
    {
        let this = value_encodable(&items[i]);
        if !this {
            assert(!encodable(s[i as int]));
            proof {
                lemma_encodable_items_all(s, s.len());
            }
            return false;
        }
        i += 1;
    }
    proof {
        lemma_encodable_items_all(s, s.len());
    }
    true
}

pub fn dict_encodable(dict: &BoltDict) -> (r: bool)
    ensures
        r == encodable(Value::Dict(dict@)),
    decreases dict, 0nat,
{
    let ghost s = dict@;
    proof {
        lemma_dict_view(*dict);
        lemma_encodable_entries_all(s, s.len());
    }
    if dict.entries.len() > 0xFFFF_FFFF {
        return false;
    }
    let mut i: usize = 0;
    while i < dict.entries.len()
        invariant
            i <= dict.entries.len(),
            s == dict@,
            s.len() == dict.entries.len(),
            forall|j: int|
                0 <= j < dict.entries.len() ==> #[trigger] s[j] == (
                    dict.entries[j].0@,
                    dict.entries[j].1@,
                ),
            dict.entries.len() <= 0xFFFF_FFFF,
            forall|j: int|
                0 <= j < i ==> encodable((#[trigger] s[j]).1) && encode_utf8(s[j].0).len()
                    <= 0xFFFF_FFFF,
        decreases dict.entries.len() - i,
    {
        let key_ok = str_encodable(&dict.entries[i].0);
        let value_ok = value_encodable(&dict.entries[i].1);
        if !(key_ok && value_ok) {
            assert(!(encodable(s[i as int].1) && encode_utf8(s[i as int].0).len() <= 0xFFFF_FFFF));
            proof {
                lemma_entries_not_encodable(s, s.len(), i as int);
            }
            return false;
        }
        assert(encodable(s[i as int].1) && encode_utf8(s[i as int].0).len() <= 0xFFFF_FFFF);
        i += 1;
    }
    proof {
        lemma_encodable_entries_all(s, s.len());
        assert forall|j: int| 0 <= j < s.len() implies #[trigger] encodable(s[j].1) && encode_utf8(s[j].0).len() <= 0xFFFF_FFFF by {
            assert(encodable(s[j].1));
        }
    }
    true
}

/// Appends a value in PackStream form.
pub fn encode_value(buf: &mut Vec<u8>, value: &BoltValue)
    requires
        encodable(value@),
    ensures
        final(buf)@ == old(buf)@ + enc(value@),
    decreases value, 1nat,
{
    match value {
        BoltValue::Null => encode_null(buf),
        BoltValue::Boolean(b) => encode_bool(buf, *b),
        BoltValue::Integer(i) => encode_int(buf, *i),
        BoltValue::Float(f) => encode_float(buf, *f),
        BoltValue::String(s) => encode_string(buf, s.as_str()),
        BoltValue::Bytes(b) => encode_bytes(buf, b.as_slice()),
        BoltValue::List(items) => encode_list(buf, items),
        BoltValue::Dict(d) => encode_dict(buf, d),
        BoltValue::Node(n) => encode_node(buf, n),
        BoltValue::Relationship(_) | BoltValue::Path(_) => encode_graph_struct(buf, value),
        BoltValue::UnboundRelationship(r) => encode_unbound_relationship(buf, r),
        _ => encode_plain_struct(buf, value),
    }
    assert(final(buf)@ =~= old(buf)@ + enc(value@));
}

/// Appends a relationship or a path.
#[verifier::rlimit(40)]
fn encode_graph_struct(buf: &mut Vec<u8>, value: &BoltValue)
    requires
        value is Relationship || value is Path,
        encodable(value@),
    ensures
        final(buf)@ == old(buf)@ + enc(value@),
    decreases value, 0nat,
{
    proof {
        lemma_encodable_fields(value@);
        lemma_enc_fields(value@->Struct_1);
    }
    match value {
        BoltValue::Relationship(r) => {
            encode_struct_header(buf, TAG_RELATIONSHIP, 8);
            encode_int(buf, r.id);
            encode_int(buf, r.start_node_id);
            encode_int(buf, r.end_node_id);
            encode_string(buf, r.rel_type.as_str());
            encode_dict(buf, &r.properties);
            encode_string(buf, r.element_id.as_str());
            encode_string(buf, r.start_element_id.as_str());
            encode_string(buf, r.end_element_id.as_str());
        },
        BoltValue::Path(p) => {
            encode_struct_header(buf, TAG_PATH, 3);
            encode_node_list(buf, &p.nodes);
            encode_unbound_list(buf, &p.rels);
            encode_int_list(buf, &p.indices);
        },
        _ => {},
    }
    assert(final(buf)@ =~= old(buf)@ + enc(value@));
}

/// Appends a temporal or spatial structure: a tag and integer or float fields.
fn encode_plain_struct(buf: &mut Vec<u8>, value: &BoltValue)
    requires
        value is Date || value is Time || value is LocalTime || value is DateTime
            || value is DateTimeZoneId || value is LocalDateTime || value is Duration
            || value is Point2D || value is Point3D,
        encodable(value@),
    ensures
        final(buf)@ == old(buf)@ + enc(value@),
    decreases value, 0nat,
{
    proof {
        lemma_encodable_fields(value@);
        lemma_enc_fields(value@->Struct_1);
    }
    match value {
        BoltValue::Date(d) => {
            encode_struct_header(buf, TAG_DATE, 1);
            encode_int(buf, d.days);
        },
        BoltValue::Time(t) => {
            encode_struct_header(buf, TAG_TIME, 2);
            encode_int(buf, t.nanoseconds);
            encode_int(buf, t.tz_offset_seconds);
        },
        BoltValue::LocalTime(t) => {
            encode_struct_header(buf, TAG_LOCAL_TIME, 1);
            encode_int(buf, t.nanoseconds);
        },
        BoltValue::DateTime(t) => {
            encode_struct_header(buf, TAG_DATE_TIME, 3);
            encode_int(buf, t.seconds);
            encode_int(buf, t.nanoseconds);
            encode_int(buf, t.tz_offset_seconds);
        },
        BoltValue::DateTimeZoneId(t) => {
            encode_struct_header(buf, TAG_DATE_TIME_ZONE_ID, 3);
            encode_int(buf, t.seconds);
            encode_int(buf, t.nanoseconds);
            encode_string(buf, t.tz_id.as_str());
        },
        BoltValue::LocalDateTime(t) => {
            encode_struct_header(buf, TAG_LOCAL_DATE_TIME, 2);
            encode_int(buf, t.seconds);
            encode_int(buf, t.nanoseconds);
        },
        BoltValue::Duration(d) => {
            encode_struct_header(buf, TAG_DURATION, 4);
            encode_int(buf, d.months);
            encode_int(buf, d.days);
            encode_int(buf, d.seconds);
            encode_int(buf, d.nanoseconds);
        },
        BoltValue::Point2D(p) => {
            encode_struct_header(buf, TAG_POINT_2D, 3);
            encode_int(buf, p.srid);
            encode_float(buf, p.x);
            encode_float(buf, p.y);
        },
        BoltValue::Point3D(p) => {
            encode_struct_header(buf, TAG_POINT_3D, 4);
            encode_int(buf, p.srid);
            encode_float(buf, p.x);
            encode_float(buf, p.y);
            encode_float(buf, p.z);
        },
        _ => {},
    }
    assert(final(buf)@ =~= old(buf)@ + enc(value@));
}

/// Appends a list: its size header, then each item.
pub fn encode_list(buf: &mut Vec<u8>, items: &Vec<BoltValue>)
    requires
        encodable(Value::List(view_items(*items, items.len() as nat))),
    ensures
        final(buf)@ == old(buf)@ + enc(Value::List(view_items(*items, items.len() as nat))),
    decreases items, 0nat,
{
    let ghost s = view_items(*items, items.len() as nat);
    proof {
        lemma_list_view(*items);
    }
    encode_size_header(buf, TINY_LIST, LIST_8, items.len());
    let ghost mid = buf@;
    let mut i: usize = 0;
    while i < items.len()
        invariant
            i <= items.len(),
            s == view_items(*items, items.len() as nat),
            s.len() == items.len(),
            forall|j: int| 0 <= j < items.len() ==> #[trigger] s[j] == view_value_of(items, j),
            encodable_items(s, s.len()),
            buf@ == mid + enc_items(s, i as nat),
        decreases items.len() - i,
    {
        proof {
            lemma_encodable_items(s, s.len(), i as int);
        }
        encode_value(buf, &items[i]);
        i += 1;
    }
}

spec fn view_value_of(items: &Vec<BoltValue>, j: int) -> Value {
    items[j]@
}

/// Appends a dictionary: its size header, then each key and value.
pub fn encode_dict(buf: &mut Vec<u8>, dict: &BoltDict)
    requires
        encodable(Value::Dict(dict@)),
    ensures
        final(buf)@ == old(buf)@ + enc(Value::Dict(dict@)),
    decreases dict, 0nat,
{
    let ghost s = dict@;
    proof {
        lemma_dict_view(*dict);
    }
    encode_size_header(buf, TINY_DICT, DICT_8, dict.entries.len());
    let ghost mid = buf@;
    let mut i: usize = 0;
    while i < dict.entries.len()
        invariant
            i <= dict.entries.len(),
            s == dict@,
            s.len() == dict.entries.len(),
            forall|j: int|
                0 <= j < dict.entries.len() ==> #[trigger] s[j] == (
                    dict.entries[j].0@,
                    dict.entries[j].1@,
                ),
            encodable_entries(s, s.len()),
            buf@ == mid + enc_entries(s, i as nat),
        decreases dict.entries.len() - i,
    {
        proof {
            lemma_encodable_entries(s, s.len(), i as int);
        }
        encode_string(buf, dict.entries[i].0.as_str());
        encode_value(buf, &dict.entries[i].1);
        i += 1;
        assert(buf@ =~= mid + enc_entries(s, i as nat));
    }
}

fn encode_node(buf: &mut Vec<u8>, n: &BoltNode)
    requires
        encodable(view_node(*n)),
    ensures
        final(buf)@ == old(buf)@ + enc(view_node(*n)),
    decreases n, 0nat,
{
    proof {
        lemma_encodable_fields(view_node(*n));
        lemma_enc_fields(view_node(*n)->Struct_1);
    }
    encode_struct_header(buf, TAG_NODE, 4);
    encode_int(buf, n.id);
    encode_string_list(buf, &n.labels);
    encode_dict(buf, &n.properties);
    encode_string(buf, n.element_id.as_str());
    assert(final(buf)@ =~= old(buf)@ + enc(view_node(*n)));
}

fn encode_unbound_relationship(buf: &mut Vec<u8>, r: &BoltUnboundRelationship)
    requires
        encodable(view_unbound(*r)),
    ensures
        final(buf)@ == old(buf)@ + enc(view_unbound(*r)),
    decreases r, 0nat,
{
    proof {
        lemma_encodable_fields(view_unbound(*r));
        lemma_enc_fields(view_unbound(*r)->Struct_1);
    }
    encode_struct_header(buf, TAG_UNBOUND_RELATIONSHIP, 4);
    encode_int(buf, r.id);
    encode_string(buf, r.rel_type.as_str());
    encode_dict(buf, &r.properties);
    encode_string(buf, r.element_id.as_str());
    assert(final(buf)@ =~= old(buf)@ + enc(view_unbound(*r)));
}

fn encode_string_list(buf: &mut Vec<u8>, items: &Vec<String>)
    requires
        encodable(Value::List(str_items(items@))),
    ensures
        final(buf)@ == old(buf)@ + enc(Value::List(str_items(items@))),
{
    let ghost s = str_items(items@);
    encode_size_header(buf, TINY_LIST, LIST_8, items.len());
    let ghost mid = buf@;
    let mut i: usize = 0;
    while i < items.len()
        invariant
            i <= items.len(),
            s == str_items(items@),
            encodable_items(s, s.len()),
            buf@ == mid + enc_items(s, i as nat),
        decreases items.len() - i,
    {
        proof {
            lemma_encodable_items(s, s.len(), i as int);
        }
        encode_string(buf, items[i].as_str());
        i += 1;
    }
}

fn encode_int_list(buf: &mut Vec<u8>, items: &Vec<i64>)
    requires
        items.len() <= 0xFFFF_FFFF,
    ensures
        final(buf)@ == old(buf)@ + enc(Value::List(int_items(items@))),
{
    let ghost s = int_items(items@);
    encode_size_header(buf, TINY_LIST, LIST_8, items.len());
    let ghost mid = buf@;
    let mut i: usize = 0;
    while i < items.len()
        invariant
            i <= items.len(),
            s == int_items(items@),
            buf@ == mid + enc_items(s, i as nat),
        decreases items.len() - i,
    {
        encode_int(buf, items[i]);
        i += 1;
    }
}

fn encode_node_list(buf: &mut Vec<u8>, items: &Vec<BoltNode>)
    requires
        encodable(Value::List(view_nodes(*items, items.len() as nat))),
    ensures
        final(buf)@ == old(buf)@ + enc(Value::List(view_nodes(*items, items.len() as nat))),
    decreases items, 0nat,
{
    let ghost s = view_nodes(*items, items.len() as nat);
    proof {
        lemma_view_nodes(*items, items.len() as nat);
    }
    encode_size_header(buf, TINY_LIST, LIST_8, items.len());
    let ghost mid = buf@;
    let mut i: usize = 0;
    while i < items.len()
        invariant
            i <= items.len(),
            s == view_nodes(*items, items.len() as nat),
            s.len() == items.len(),
            forall|j: int| 0 <= j < items.len() ==> #[trigger] s[j] == view_node(items[j]),
            encodable_items(s, s.len()),
            buf@ == mid + enc_items(s, i as nat),
        decreases items.len() - i,
    {
        proof {
            lemma_encodable_items(s, s.len(), i as int);
        }
        encode_node(buf, &items[i]);
        i += 1;
    }
}

fn encode_unbound_list(buf: &mut Vec<u8>, items: &Vec<BoltUnboundRelationship>)
    requires
        encodable(Value::List(view_unbounds(*items, items.len() as nat))),
    ensures
        final(buf)@ == old(buf)@ + enc(Value::List(view_unbounds(*items, items.len() as nat))),
    decreases items, 0nat,
{
    let ghost s = view_unbounds(*items, items.len() as nat);
    proof {
        lemma_view_unbounds(*items, items.len() as nat);
    }
    encode_size_header(buf, TINY_LIST, LIST_8, items.len());
    let ghost mid = buf@;
    let mut i: usize = 0;
    while i < items.len()
        invariant
            i <= items.len(),
            s == view_unbounds(*items, items.len() as nat),
            s.len() == items.len(),
            forall|j: int| 0 <= j < items.len() ==> #[trigger] s[j] == view_unbound(items[j]),
            encodable_items(s, s.len()),
            buf@ == mid + enc_items(s, i as nat),
        decreases items.len() - i,
    {
        proof {
            lemma_encodable_items(s, s.len(), i as int);
        }
        encode_unbound_relationship(buf, &items[i]);
        i += 1;
    }
}

pub proof fn lemma_view_nodes(s: Vec<BoltNode>, n: nat)
    requires
        n <= s.len(),
    ensures
        view_nodes(s, n).len() == n,
        forall|i: int| 0 <= i < n ==> #[trigger] view_nodes(s, n)[i] == view_node(s[i]),
    decreases n,
{
    if n > 0 {
        lemma_view_nodes(s, (n - 1) as nat);
    }
}

pub proof fn lemma_view_unbounds(s: Vec<BoltUnboundRelationship>, n: nat)
    requires
        n <= s.len(),
    ensures
        view_unbounds(s, n).len() == n,
        forall|i: int| 0 <= i < n ==> #[trigger] view_unbounds(s, n)[i] == view_unbound(s[i]),
    decreases n,
{
    if n > 0 {
        lemma_view_unbounds(s, (n - 1) as nat);
    }
}

} // verus!
