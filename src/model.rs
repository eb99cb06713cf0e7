use crate::error::Error;
use vstd::prelude::*;
use vstd::utf8::*;

verus! {

// Tag bytes of the wire format: the masks of the forms that pack a size or a
// value into the tag, then the tags of the explicit table.
pub const MAP_MASK: u8 = 0x80;
pub const ARR_MASK: u8 = 0x90;
pub const RAW_MASK: u8 = 0xa0;
pub const STR_MASK: u8 = 0xb0;
pub const INT_MASK: u8 = 0xe0;

pub const PACKED_NULL: u8 = 0xc0;
pub const PACKED_FALSE: u8 = 0xc2;
pub const PACKED_TRUE: u8 = 0xc3;
pub const PACKED_FLOAT: u8 = 0xca;
pub const PACKED_DOUBLE: u8 = 0xcb;
pub const PACKED_UINT8: u8 = 0xcc;
pub const PACKED_UINT16: u8 = 0xcd;
pub const PACKED_UINT32: u8 = 0xce;
pub const PACKED_UINT64: u8 = 0xcf;
pub const PACKED_INT8: u8 = 0xd0;
pub const PACKED_INT16: u8 = 0xd1;
pub const PACKED_INT32: u8 = 0xd2;
pub const PACKED_INT64: u8 = 0xd3;
pub const PACKED_STR_U16: u8 = 0xd8;
pub const PACKED_STR_U32: u8 = 0xd9;
pub const PACKED_RAW_U16: u8 = 0xda;
pub const PACKED_RAW_U32: u8 = 0xdb;
pub const PACKED_ARR_U16: u8 = 0xdc;
pub const PACKED_ARR_U32: u8 = 0xdd;
pub const PACKED_MAP_U16: u8 = 0xde;
pub const PACKED_MAP_U32: u8 = 0xdf;

/// The mathematical value that a decoded or constructed `Unpacked` stands for.
///
/// Floating point numbers are held as their IEEE-754 bit patterns, text as its
/// characters, and a map as its entries in the order in which they are kept.
pub enum Value {
    Uint8(u8),
    Uint16(u16),
    Uint32(u32),
    Uint64(u64),
    Int8(i8),
    Int16(i16),
    Int32(i32),
    Int64(i64),
    Float(u32),
    Double(u64),
    Bool(bool),
    Raw(Seq<u8>),
    Str(Seq<char>),
    Null,
    Undefined,
    Array(Seq<Value>),
    Mapping(Seq<(Value, Value)>),
}

/// Structural equality: same variant and payload; arrays pairwise equal; two
/// maps of one size where each entry of `a` finds, at the first key of `b`
/// that is equal to its own, an equal value.
pub open spec fn equiv(a: Value, b: Value) -> bool
    decreases a, 0nat, 0nat,
{
    match a {
        Value::Array(x) => match b {
            Value::Array(y) => x.len() == y.len() && forall|i: int|
                0 <= i < x.len() ==> equiv(#[trigger] x[i], y[i]),
            _ => false,
        },
        Value::Mapping(x) => match b {
            Value::Mapping(y) => x.len() == y.len() && forall|i: int|
                0 <= i < x.len() ==> entry_found(y, #[trigger] x[i]),
            _ => false,
        },
        _ => a == b,
    }
}

/// The entry `e` has a key-equal counterpart in `m` that holds an equal value.
pub open spec fn entry_found(m: Seq<(Value, Value)>, e: (Value, Value)) -> bool
    decreases e, 2nat, 0nat,
{
    let j = key_index(m, e.0);
    0 <= j < m.len() && equiv(e.1, m[j].1)
}

/// Index of the first entry of `m` whose key is equal to `k`, or -1.
pub open spec fn key_index(m: Seq<(Value, Value)>, k: Value) -> int
    decreases k, 1nat, m.len(),
{
    if m.len() == 0 {
        -1
    } else if equiv(k, m[0].0) {
        0
    } else {
        let r = key_index(m.subrange(1, m.len() as int), k);
        if r < 0 {
            -1
        } else {
            r + 1
        }
    }
}

/// `256` to the power `n`.
pub open spec fn pow256(n: nat) -> nat
    decreases n,
{
    if n == 0 {
        1
    } else {
        256 * pow256((n - 1) as nat)
    }
}

/// The unsigned integer that the bytes `s` spell, most significant byte first.
pub open spec fn be_value(s: Seq<u8>) -> nat
    decreases s.len(),
{
    if s.len() == 0 {
        0
    } else {
        be_value(s.subrange(0, s.len() - 1)) * 256 + s[s.len() - 1] as nat
    }
}

/// The `width` low-order bytes of `n`, most significant byte first.
pub open spec fn be_bytes(n: nat, width: nat) -> Seq<u8>
    decreases width,
{
    if width == 0 {
        Seq::empty()
    } else {
        be_bytes(n / 256, (width - 1) as nat).push((n % 256) as u8)
    }
}

/// Reads an unsigned integer of `width` bytes from the front of `s`; gives it
/// and what follows it.
pub open spec fn read_uint(s: Seq<u8>, width: nat) -> Result<(nat, Seq<u8>), Error> {
    if s.len() < width {
        Err(Error::EndOfData)
    } else {
        Ok((be_value(s.take(width as int)), s.skip(width as int)))
    }
}

/// Reads `n` bytes from the front of `s`; gives them and what follows them.
pub open spec fn read_bytes(s: Seq<u8>, n: nat) -> Result<(Seq<u8>, Seq<u8>), Error> {
    if s.len() < n {
        Err(Error::EndOfData)
    } else {
        Ok((s.take(n as int), s.skip(n as int)))
    }
}

/// Reads `n` bytes of UTF-8 text from the front of `s`.
pub open spec fn read_text(s: Seq<u8>, n: nat) -> Result<(Seq<char>, Seq<u8>), Error> {
    match read_bytes(s, n) {
        Ok((b, r)) => if valid_utf8(b) {
            Ok((decode_utf8(b), r))
        } else {
            Err(Error::StringParseError)
        },
        Err(e) => Err(e),
    }
}

/// The entries `m` after an insertion of `k` with value `v`: an entry whose key
/// is equal to `k` keeps its key and takes the value, else the pair is appended.
pub open spec fn map_insert(m: Seq<(Value, Value)>, k: Value, v: Value) -> Seq<(Value, Value)> {
    let j = key_index(m, k);
    if 0 <= j < m.len() {
        m.update(j, (m[j].0, v))
    } else {
        m.push((k, v))
    }
}

/// The map built by inserting the pairs `ps` in order into an empty map.
pub open spec fn map_of(ps: Seq<(Value, Value)>) -> Seq<(Value, Value)>
    decreases ps.len(),
{
    if ps.len() == 0 {
        Seq::empty()
    } else {
        let last = ps[ps.len() - 1];
        map_insert(map_of(ps.subrange(0, ps.len() - 1)), last.0, last.1)
    }
}

/// No key of `m` is equal to the key of an earlier entry.
pub open spec fn distinct_keys(m: Seq<(Value, Value)>) -> bool {
    forall|j: int| 0 <= j < m.len() ==> key_index(#[trigger] m.take(j), m[j].0) < 0
}

/// Every length in `v` fits the format's widest length prefix, 32 bits.
pub open spec fn encodable(v: Value) -> bool
    decreases v,
{
    match v {
        Value::Raw(b) => b.len() <= 0xffff_ffff,
        Value::Str(c) => encode_utf8(c).len() <= 0xffff_ffff,
        Value::Array(x) => x.len() <= 0xffff_ffff && forall|i: int|
            0 <= i < x.len() ==> encodable(#[trigger] x[i]),
        Value::Mapping(m) => m.len() <= 0xffff_ffff && forall|i: int|
            0 <= i < m.len() ==> encodable(#[trigger] m[i].0) && encodable(m[i].1),
        _ => true,
    }
}

/// `v` can be encoded, and the keys of each of its maps are unique.
pub open spec fn well_formed(v: Value) -> bool
    decreases v,
{
    match v {
        Value::Raw(b) => b.len() <= 0xffff_ffff,
        Value::Str(c) => encode_utf8(c).len() <= 0xffff_ffff,
        Value::Array(x) => x.len() <= 0xffff_ffff && forall|i: int|
            0 <= i < x.len() ==> well_formed(#[trigger] x[i]),
        Value::Mapping(m) => m.len() <= 0xffff_ffff && distinct_keys(m) && forall|i: int|
            0 <= i < m.len() ==> well_formed(#[trigger] m[i].0) && well_formed(m[i].1),
        _ => true,
    }
}

/// The keys of every map in `v` are unique.
pub open spec fn keys_unique(v: Value) -> bool
    decreases v,
{
    match v {
        Value::Array(x) => forall|i: int| 0 <= i < x.len() ==> keys_unique(#[trigger] x[i]),
        Value::Mapping(m) => distinct_keys(m) && forall|i: int|
            0 <= i < m.len() ==> keys_unique(#[trigger] m[i].0) && keys_unique(m[i].1),
        _ => true,
    }
}

/// No `Undefined` occurs anywhere in `v`.
pub open spec fn free_of_undefined(v: Value) -> bool
    decreases v,
{
    match v {
        Value::Undefined => false,
        Value::Array(x) => forall|i: int| 0 <= i < x.len() ==> free_of_undefined(#[trigger] x[i]),
        Value::Mapping(m) => forall|i: int|
            0 <= i < m.len() ==> free_of_undefined(#[trigger] m[i].0) && free_of_undefined(m[i].1),
        _ => true,
    }
}

/// The tag and length prefix of a container of `n` items: the fixed-size tag
/// `fixed + n` up to 15, else `tag16` and 16 bits up to 65535, else `tag32`
/// and 32 bits.
pub open spec fn length_header(fixed: u8, tag16: u8, tag32: u8, n: nat) -> Seq<u8> {
    if n <= 15 {
        seq![(fixed + n) as u8]
    } else if n <= 0xffff {
        seq![tag16] + be_bytes(n, 2)
    } else {
        seq![tag32] + be_bytes(n, 4)
    }
}

/// The canonical encoding of `v`.
pub open spec fn encoding(v: Value) -> Seq<u8>
    decreases v,
{
    match v {
        Value::Uint8(x) => if x < 0x80 {
            seq![x]
        } else {
            seq![PACKED_UINT8, x]
        },
        Value::Uint16(x) => seq![PACKED_UINT16] + be_bytes(x as nat, 2),
        Value::Uint32(x) => seq![PACKED_UINT32] + be_bytes(x as nat, 4),
        Value::Uint64(x) => seq![PACKED_UINT64] + be_bytes(x as nat, 8),
        Value::Int8(x) => if -32 <= x < 0 {
            seq![((x + 32) as u8) ^ INT_MASK]
        } else {
            seq![PACKED_INT8, x as u8]
        },
        Value::Int16(x) => seq![PACKED_INT16] + be_bytes(x as u16 as nat, 2),
        Value::Int32(x) => seq![PACKED_INT32] + be_bytes(x as u32 as nat, 4),
        Value::Int64(x) => seq![PACKED_INT64] + be_bytes(x as u64 as nat, 8),
        Value::Float(bits) => seq![PACKED_FLOAT] + be_bytes(bits as nat, 4),
        Value::Double(bits) => seq![PACKED_DOUBLE] + be_bytes(bits as nat, 8),
        Value::Bool(b) => if b {
            seq![PACKED_TRUE]
        } else {
            seq![PACKED_FALSE]
        },
        Value::Null => seq![PACKED_NULL],
        Value::Undefined => seq![PACKED_NULL],
        Value::Raw(b) => length_header(RAW_MASK, PACKED_RAW_U16, PACKED_RAW_U32, b.len()) + b,
        Value::Str(c) => length_header(STR_MASK, PACKED_STR_U16, PACKED_STR_U32, encode_utf8(c).len())
            + encode_utf8(c),
        Value::Array(x) => length_header(ARR_MASK, PACKED_ARR_U16, PACKED_ARR_U32, x.len())
            + encode_items(x),
        Value::Mapping(m) => length_header(MAP_MASK, PACKED_MAP_U16, PACKED_MAP_U32, m.len())
            + encode_entries(m),
    }
}

/// The encodings of the items of `x`, one after another.
pub open spec fn encode_items(x: Seq<Value>) -> Seq<u8>
    decreases x,
{
    if x.len() == 0 {
        Seq::empty()
    } else {
        encoding(x[0]) + encode_items(x.subrange(1, x.len() as int))
    }
}

/// The encodings of the entries of `m`, each key followed by its value.
pub open spec fn encode_entries(m: Seq<(Value, Value)>) -> Seq<u8>
    decreases m,
{
    if m.len() == 0 {
        Seq::empty()
    } else {
        encoding(m[0].0) + encoding(m[0].1) + encode_entries(m.subrange(1, m.len() as int))
    }
}

/// Decodes one value from the front of `s`; gives it and the bytes after it.
pub open spec fn parse(s: Seq<u8>) -> Result<(Value, Seq<u8>), Error>
    decreases s.len(), 0nat, 0nat,
{
    if s.len() == 0 {
        Err(Error::EndOfData)
    } else {
        let tag = s[0];
        let r = s.skip(1);
        if tag < 0x80 {
            Ok((Value::Uint8(tag), r))
        } else if tag >= 0xe0 {
            Ok((Value::Int8((tag - 0xe0 - 32) as i8), r))
        } else if tag <= 0x8f {
            parse_map(r, (tag - 0x80) as nat)
        } else if tag <= 0x9f {
            parse_array(r, (tag - 0x90) as nat)
        } else if tag <= 0xaf {
            parse_raw(r, (tag - 0xa0) as nat)
        } else if tag <= 0xbf {
            parse_str(r, (tag - 0xb0) as nat)
        } else {
            parse_table(tag, r)
        }
    }
}

/// Decodes the value after a tag of the explicit table, from the bytes `r`
/// that follow the tag.
pub open spec fn parse_table(tag: u8, r: Seq<u8>) -> Result<(Value, Seq<u8>), Error>
    decreases r.len(), 3nat, 0nat,
{
    if tag == PACKED_NULL {
        Ok((Value::Null, r))
    } else if tag == PACKED_FALSE {
        Ok((Value::Bool(false), r))
    } else if tag == PACKED_TRUE {
        Ok((Value::Bool(true), r))
    } else if tag == PACKED_FLOAT {
        match read_uint(r, 4) {
            Ok((n, r2)) => Ok((Value::Float(n as u32), r2)),
            Err(e) => Err(e),
        }
    } else if tag == PACKED_DOUBLE {
        match read_uint(r, 8) {
            Ok((n, r2)) => Ok((Value::Double(n as u64), r2)),
            Err(e) => Err(e),
        }
    } else if tag == PACKED_UINT8 {
        match read_uint(r, 1) {
            Ok((n, r2)) => Ok((Value::Uint8(n as u8), r2)),
            Err(e) => Err(e),
        }
    } else if tag == PACKED_UINT16 {
        match read_uint(r, 2) {
            Ok((n, r2)) => Ok((Value::Uint16(n as u16), r2)),
            Err(e) => Err(e),
        }
    } else if tag == PACKED_UINT32 {
        match read_uint(r, 4) {
            Ok((n, r2)) => Ok((Value::Uint32(n as u32), r2)),
            Err(e) => Err(e),
        }
    } else if tag == PACKED_UINT64 {
        match read_uint(r, 8) {
            Ok((n, r2)) => Ok((Value::Uint64(n as u64), r2)),
            Err(e) => Err(e),
        }
    } else if tag == PACKED_INT8 {
        match read_uint(r, 1) {
            Ok((n, r2)) => Ok((Value::Int8(n as i8), r2)),
            Err(e) => Err(e),
        }
    } else if tag == PACKED_INT16 {
        match read_uint(r, 2) {
            Ok((n, r2)) => Ok((Value::Int16(n as i16), r2)),
            Err(e) => Err(e),
        }
    } else if tag == PACKED_INT32 {
        match read_uint(r, 4) {
            Ok((n, r2)) => Ok((Value::Int32(n as i32), r2)),
            Err(e) => Err(e),
        }
    } else if tag == PACKED_INT64 {
        match read_uint(r, 8) {
            Ok((n, r2)) => Ok((Value::Int64(n as i64), r2)),
            Err(e) => Err(e),
        }
    } else {
        parse_prefixed(tag, r)
    }
}

/// Decodes the value after a tag with a 16- or 32-bit length prefix, from the
/// bytes `r` that follow the tag; any other tag gives `Undefined`.
pub open spec fn parse_prefixed(tag: u8, r: Seq<u8>) -> Result<(Value, Seq<u8>), Error>
    decreases r.len(), 2nat, 1nat,
{
    if PACKED_STR_U16 <= tag <= PACKED_MAP_U32 {
        match read_uint(r, length_width(tag)) {
            Ok((n, r2)) => if tag == PACKED_STR_U16 || tag == PACKED_STR_U32 {
                parse_str(r2, n)
            } else if tag == PACKED_RAW_U16 || tag == PACKED_RAW_U32 {
                parse_raw(r2, n)
            } else if tag == PACKED_ARR_U16 || tag == PACKED_ARR_U32 {
                parse_array(r2, n)
            } else {
                parse_map(r2, n)
            },
            Err(e) => Err(e),
        }
    } else {
        Ok((Value::Undefined, r))
    }
}

/// The width in bytes of the length that follows a length-prefixed tag.
pub open spec fn length_width(tag: u8) -> nat {
    if tag == PACKED_STR_U16 || tag == PACKED_RAW_U16 || tag == PACKED_ARR_U16 || tag
        == PACKED_MAP_U16 {
        2
    } else {
        4
    }
}

/// Decodes `n` raw bytes.
pub open spec fn parse_raw(s: Seq<u8>, n: nat) -> Result<(Value, Seq<u8>), Error> {
    match read_bytes(s, n) {
        Ok((b, r)) => Ok((Value::Raw(b), r)),
        Err(e) => Err(e),
    }
}

/// Decodes `n` bytes of UTF-8 text.
pub open spec fn parse_str(s: Seq<u8>, n: nat) -> Result<(Value, Seq<u8>), Error> {
    match read_text(s, n) {
        Ok((c, r)) => Ok((Value::Str(c), r)),
        Err(e) => Err(e),
    }
}

/// Decodes an array of `n` items.
pub open spec fn parse_array(s: Seq<u8>, n: nat) -> Result<(Value, Seq<u8>), Error>
    decreases s.len(), 2nat, n,
{
    match parse_items(s, n) {
        Ok((x, r)) => Ok((Value::Array(x), r)),
        Err(e) => Err(e),
    }
}

/// Decodes a map of `n` key/value pairs.
pub open spec fn parse_map(s: Seq<u8>, n: nat) -> Result<(Value, Seq<u8>), Error>
    decreases s.len(), 2nat, n,
{
    match parse_pairs(s, n) {
        Ok((ps, r)) => Ok((Value::Mapping(map_of(ps)), r)),
        Err(e) => Err(e),
    }
}

/// Decodes `n` values one after another. Every value takes at least its tag
/// byte, so the bytes left shrink at each step.
pub open spec fn parse_items(s: Seq<u8>, n: nat) -> Result<(Seq<Value>, Seq<u8>), Error>
    decreases s.len(), 1nat, n,
{
    if n == 0 {
        Ok((Seq::empty(), s))
    } else {
        match parse(s) {
            Ok((v, r)) => if r.len() < s.len() {
                match parse_items(r, (n - 1) as nat) {
                    Ok((vs, r2)) => Ok((seq![v] + vs, r2)),
                    Err(e) => Err(e),
                }
            } else {
                Err(Error::EndOfData)
            },
            Err(e) => Err(e),
        }
    }
}

/// Decodes `n` key/value pairs one after another, as `parse_items` does.
pub open spec fn parse_pairs(s: Seq<u8>, n: nat) -> Result<(Seq<(Value, Value)>, Seq<u8>), Error>
    decreases s.len(), 1nat, n,
{
    if n == 0 {
        Ok((Seq::empty(), s))
    } else {
        match parse(s) {
            Ok((k, r1)) => if r1.len() < s.len() {
                match parse(r1) {
                    Ok((v, r2)) => if r2.len() < r1.len() {
                        match parse_pairs(r2, (n - 1) as nat) {
                            Ok((ps, r3)) => Ok((seq![(k, v)] + ps, r3)),
                            Err(e) => Err(e),
                        }
                    } else {
                        Err(Error::EndOfData)
                    },
                    Err(e) => Err(e),
                }
            } else {
                Err(Error::EndOfData)
            },
            Err(e) => Err(e),
        }
    }
}

} // verus!
