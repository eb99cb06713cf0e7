use crate::binarypack::{lemma_view_keys_unique, Unpacked};
use crate::error::Error;
use crate::lemmas::{
    lemma_be_round_trip, lemma_be_value_bound, lemma_items_len, lemma_key_index,
    lemma_map_insert_distinct, lemma_map_of_distinct, lemma_pairs_len, lemma_well_formed_parts, lemma_parse_shrinks, lemma_pow256_widths,
};
use crate::model::{
    be_bytes, be_value, distinct_keys, encodable, encode_entries, encode_items, encoding, entry_found, equiv,
    free_of_undefined, key_index, keys_unique, length_header, length_width, map_insert, map_of, parse, parse_array,
    parse_items, parse_map, parse_pairs, parse_prefixed, parse_raw, parse_str, parse_table,
    pow256, read_bytes, read_uint, well_formed, Value, ARR_MASK, MAP_MASK, PACKED_ARR_U16,
    PACKED_ARR_U32, PACKED_MAP_U16, PACKED_MAP_U32, PACKED_RAW_U16, PACKED_RAW_U32,
    PACKED_STR_U16, PACKED_STR_U32, RAW_MASK, STR_MASK,
};
use vstd::prelude::*;
use vstd::utf8::{
    decode_utf8_encode_utf8, encode_utf8, encode_utf8_decode_utf8, encode_utf8_valid_utf8, valid_utf8,
};

verus! {

/// Reading `width` bytes that spell `n` gives `n` and what follows.
proof fn lemma_read_be(n: nat, width: nat, rest: Seq<u8>)
    requires
        n < pow256(width),
    ensures
        read_uint(be_bytes(n, width) + rest, width) == Ok::<(nat, Seq<u8>), Error>((n, rest)),
{
    lemma_be_round_trip(n, width);
    let s = be_bytes(n, width) + rest;
    assert(s.take(width as int) =~= be_bytes(n, width));
    assert(s.skip(width as int) =~= rest);
}

/// The decoding that the fixed-size tag `fixed` calls for, on `n` items.
spec fn parse_form(fixed: u8, r: Seq<u8>, n: nat) -> Result<(Value, Seq<u8>), Error> {
    if fixed == MAP_MASK {
        parse_map(r, n)
    } else if fixed == ARR_MASK {
        parse_array(r, n)
    } else if fixed == RAW_MASK {
        parse_raw(r, n)
    } else {
        parse_str(r, n)
    }
}

/// A length header of any width leads the decoder to the form it names.
proof fn lemma_parse_header(fixed: u8, tag16: u8, tag32: u8, n: nat, tail: Seq<u8>)
    requires
        n <= 0xffff_ffff,
        (fixed == MAP_MASK && tag16 == PACKED_MAP_U16 && tag32 == PACKED_MAP_U32) || (fixed
            == ARR_MASK && tag16 == PACKED_ARR_U16 && tag32 == PACKED_ARR_U32) || (fixed
            == RAW_MASK && tag16 == PACKED_RAW_U16 && tag32 == PACKED_RAW_U32) || (fixed
            == STR_MASK && tag16 == PACKED_STR_U16 && tag32 == PACKED_STR_U32),
    ensures
        parse(length_header(fixed, tag16, tag32, n) + tail) == parse_form(fixed, tail, n),
{
    let s = length_header(fixed, tag16, tag32, n) + tail;
    lemma_pow256_widths();
    if n <= 15 {
        assert(s.skip(1) =~= tail);
    } else if n <= 0xffff {
        lemma_read_be(n, 2, tail);
        assert(s.skip(1) =~= be_bytes(n, 2) + tail);
        assert(parse(s) == parse_table(s[0], s.skip(1)));
        assert(parse_table(s[0], s.skip(1)) == parse_prefixed(s[0], s.skip(1)));
    } else {
        lemma_read_be(n, 4, tail);
        assert(s.skip(1) =~= be_bytes(n, 4) + tail);
        assert(parse(s) == parse_table(s[0], s.skip(1)));
        assert(parse_table(s[0], s.skip(1)) == parse_prefixed(s[0], s.skip(1)));
    }
}

/// Bit facts behind the one-byte forms of `Int8`.
proof fn lemma_int8_bits(x: i8, y: u8)
    by (bit_vector)
    requires
        y < 32,
    ensures
        (y ^ 0xe0) == y + 0xe0,
        ((x as u8) as i8) == x,
{
}

/// Bit facts behind the two's complement forms of the wider signed integers.
proof fn lemma_signed_bits(a: i16, b: i32, c: i64)
    by (bit_vector)
    ensures
        ((a as u16) as i16) == a,
        ((b as u32) as i32) == b,
        ((c as u64) as i64) == c,
{
}

/// Every encoding holds at least its tag byte.
proof fn lemma_encoding_nonempty(v: Value)
    ensures
        encoding(v).len() >= 1,
{
    match v {
        Value::Raw(b) => assert(length_header(RAW_MASK, PACKED_RAW_U16, PACKED_RAW_U32, b.len()).len() >= 1),
        Value::Str(c) => assert(length_header(STR_MASK, PACKED_STR_U16, PACKED_STR_U32, encode_utf8(c).len()).len() >= 1),
        Value::Array(x) => assert(length_header(ARR_MASK, PACKED_ARR_U16, PACKED_ARR_U32, x.len()).len() >= 1),
        Value::Mapping(m) => assert(length_header(MAP_MASK, PACKED_MAP_U16, PACKED_MAP_U32, m.len()).len() >= 1),
        _ => {},
    }
}

/// Decoding the encoding of a value that holds no container or text gives it
/// back, and the bytes after it.
#[verifier::rlimit(50)]
proof fn lemma_round_trip_scalar(v: Value, rest: Seq<u8>)
    requires
        !(v is Raw || v is Str || v is Array || v is Mapping || v is Undefined),
    ensures
        parse(encoding(v) + rest) == Ok::<(Value, Seq<u8>), Error>((v, rest)),
{
    let s = encoding(v) + rest;
    lemma_pow256_widths();
    lemma_int8_bits(0, 0);
    match v {
        Value::Uint8(x) => {
            if x >= 0x80 {
                lemma_read_be(x as nat, 1, rest);
                assert(seq![x] =~= be_bytes(x as nat, 1));
                assert(s.skip(1) =~= be_bytes(x as nat, 1) + rest);
                assert(parse(s) == parse_table(s[0], s.skip(1)));
            } else {
                assert(s.skip(1) =~= rest);
            }
        },
        Value::Int8(x) => {
            if -32 <= x < 0 {
                let y = (x + 32) as u8;
                lemma_int8_bits(x, y);
                assert(s.skip(1) =~= rest);
            } else {
                let y = #[verifier::truncate] (x as u8);
                lemma_int8_bits(x, 0);
                lemma_read_be(y as nat, 1, rest);
                assert(seq![y] =~= be_bytes(y as nat, 1));
                assert(s.skip(1) =~= be_bytes(y as nat, 1) + rest);
                assert(parse(s) == parse_table(s[0], s.skip(1)));
            }
        },
        Value::Uint16(x) => {
            lemma_read_be(x as nat, 2, rest);
            assert(s.skip(1) =~= be_bytes(x as nat, 2) + rest);
            assert(parse(s) == parse_table(s[0], s.skip(1)));
        },
        Value::Uint32(x) => {
            lemma_read_be(x as nat, 4, rest);
            assert(s.skip(1) =~= be_bytes(x as nat, 4) + rest);
            assert(parse(s) == parse_table(s[0], s.skip(1)));
        },
        Value::Uint64(x) => {
            lemma_read_be(x as nat, 8, rest);
            assert(s.skip(1) =~= be_bytes(x as nat, 8) + rest);
            assert(parse(s) == parse_table(s[0], s.skip(1)));
        },
        Value::Int16(x) => {
            lemma_signed_bits(x, 0, 0);
            let n = (#[verifier::truncate] (x as u16)) as nat;
            lemma_read_be(n, 2, rest);
            assert(s.skip(1) =~= be_bytes(n, 2) + rest);
            assert(parse(s) == parse_table(s[0], s.skip(1)));
        },
        Value::Int32(x) => {
            lemma_signed_bits(0, x, 0);
            let n = (#[verifier::truncate] (x as u32)) as nat;
            lemma_read_be(n, 4, rest);
            assert(s.skip(1) =~= be_bytes(n, 4) + rest);
            assert(parse(s) == parse_table(s[0], s.skip(1)));
        },
        Value::Int64(x) => {
            lemma_signed_bits(0, 0, x);
            let n = (#[verifier::truncate] (x as u64)) as nat;
            lemma_read_be(n, 8, rest);
            assert(s.skip(1) =~= be_bytes(n, 8) + rest);
            assert(parse(s) == parse_table(s[0], s.skip(1)));
        },
        Value::Float(x) => {
            lemma_read_be(x as nat, 4, rest);
            assert(s.skip(1) =~= be_bytes(x as nat, 4) + rest);
            assert(parse(s) == parse_table(s[0], s.skip(1)));
        },
        Value::Double(x) => {
            lemma_read_be(x as nat, 8, rest);
            assert(s.skip(1) =~= be_bytes(x as nat, 8) + rest);
            assert(parse(s) == parse_table(s[0], s.skip(1)));
        },
        _ => {
            assert(s.skip(1) =~= rest);
            assert(parse(s) == parse_table(s[0], s.skip(1)));
        },
    }
}


/// Decoding the encoding of raw bytes gives them back.
proof fn lemma_round_trip_raw(b: Seq<u8>, rest: Seq<u8>)
    requires
        b.len() <= 0xffff_ffff,
    ensures
        parse(encoding(Value::Raw(b)) + rest) == Ok::<(Value, Seq<u8>), Error>(
            (Value::Raw(b), rest),
        ),
{
    let h = length_header(RAW_MASK, PACKED_RAW_U16, PACKED_RAW_U32, b.len());
    lemma_parse_header(RAW_MASK, PACKED_RAW_U16, PACKED_RAW_U32, b.len(), b + rest);
    assert(encoding(Value::Raw(b)) + rest =~= h + (b + rest));
    assert((b + rest).take(b.len() as int) =~= b);
    assert((b + rest).skip(b.len() as int) =~= rest);
    assert(read_bytes(b + rest, b.len()) == Ok::<(Seq<u8>, Seq<u8>), Error>((b, rest)));
}

/// Decoding the encoding of text gives it back.
proof fn lemma_round_trip_str(c: Seq<char>, rest: Seq<u8>)
    requires
        encode_utf8(c).len() <= 0xffff_ffff,
    ensures
        parse(encoding(Value::Str(c)) + rest) == Ok::<(Value, Seq<u8>), Error>(
            (Value::Str(c), rest),
        ),
{
    let e = encode_utf8(c);
    let h = length_header(STR_MASK, PACKED_STR_U16, PACKED_STR_U32, e.len());
    lemma_parse_header(STR_MASK, PACKED_STR_U16, PACKED_STR_U32, e.len(), e + rest);
    encode_utf8_valid_utf8(c);
    encode_utf8_decode_utf8(c);
    assert(encoding(Value::Str(c)) + rest =~= h + (e + rest));
    assert((e + rest).take(e.len() as int) =~= e);
    assert((e + rest).skip(e.len() as int) =~= rest);
    assert(read_bytes(e + rest, e.len()) == Ok::<(Seq<u8>, Seq<u8>), Error>((e, rest)));
}

/// Decoding the encoding of a well-formed value that holds no `Undefined`
/// gives the value back, and the bytes after it.
proof fn lemma_parse_encoding(v: Value, rest: Seq<u8>)
    requires
        well_formed(v),
        free_of_undefined(v),
    ensures
        parse(encoding(v) + rest) == Ok::<(Value, Seq<u8>), Error>((v, rest)),
    decreases v, 2nat,
{
    match v {
        Value::Array(x) => lemma_round_trip_array(x, rest),
        Value::Mapping(m) => lemma_round_trip_map(m, rest),
        Value::Raw(b) => lemma_round_trip_raw(b, rest),
        Value::Str(c) => lemma_round_trip_str(c, rest),
        _ => lemma_round_trip_scalar(v, rest),
    }
}

/// Decoding the encoding of a well-formed array gives it back.
proof fn lemma_round_trip_array(x: Seq<Value>, rest: Seq<u8>)
    requires
        well_formed(Value::Array(x)),
        free_of_undefined(Value::Array(x)),
    ensures
        parse(encoding(Value::Array(x)) + rest) == Ok::<(Value, Seq<u8>), Error>(
            (Value::Array(x), rest),
        ),
    decreases x, 1nat,
{
    let h = length_header(ARR_MASK, PACKED_ARR_U16, PACKED_ARR_U32, x.len());
    lemma_parse_header(ARR_MASK, PACKED_ARR_U16, PACKED_ARR_U32, x.len(), encode_items(x) + rest);
    lemma_parse_items_encoding(x, rest);
    assert(encoding(Value::Array(x)) + rest =~= h + (encode_items(x) + rest));
}

/// Decoding the encoding of a well-formed map gives it back.
proof fn lemma_round_trip_map(m: Seq<(Value, Value)>, rest: Seq<u8>)
    requires
        well_formed(Value::Mapping(m)),
        free_of_undefined(Value::Mapping(m)),
    ensures
        parse(encoding(Value::Mapping(m)) + rest) == Ok::<(Value, Seq<u8>), Error>(
            (Value::Mapping(m), rest),
        ),
    decreases m, 1nat,
{
    let h = length_header(MAP_MASK, PACKED_MAP_U16, PACKED_MAP_U32, m.len());
    lemma_parse_header(MAP_MASK, PACKED_MAP_U16, PACKED_MAP_U32, m.len(), encode_entries(m) + rest);
    lemma_parse_pairs_encoding(m, rest);
    lemma_map_of_distinct(m);
    assert(encoding(Value::Mapping(m)) + rest =~= h + (encode_entries(m) + rest));
}

/// Decoding the encodings of the items of `x` gives them back.
proof fn lemma_parse_items_encoding(x: Seq<Value>, rest: Seq<u8>)
    requires
        forall|i: int| 0 <= i < x.len() ==> well_formed(#[trigger] x[i]) && free_of_undefined(x[i]),
    ensures
        parse_items(encode_items(x) + rest, x.len()) == Ok::<(Seq<Value>, Seq<u8>), Error>((x, rest)),
    decreases x, 0nat,
{
    if x.len() > 0 {
        let t = x.subrange(1, x.len() as int);
        let tail = encode_items(t) + rest;
        let s = encode_items(x) + rest;
        assert(s =~= encoding(x[0]) + tail);
        lemma_parse_encoding(x[0], tail);
        lemma_encoding_nonempty(x[0]);
        lemma_parse_items_encoding(t, rest);
        assert(seq![x[0]] + t =~= x);
    } else {
        assert(encode_items(x) + rest =~= rest);
        assert(x =~= Seq::<Value>::empty());
    }
}

/// Decoding the encodings of the entries of `m` gives them back as pairs.
proof fn lemma_parse_pairs_encoding(m: Seq<(Value, Value)>, rest: Seq<u8>)
    requires
        forall|i: int|
            0 <= i < m.len() ==> well_formed(#[trigger] m[i].0) && well_formed(m[i].1)
                && free_of_undefined(m[i].0) && free_of_undefined(m[i].1),
    ensures
        parse_pairs(encode_entries(m) + rest, m.len()) == Ok::<
            (Seq<(Value, Value)>, Seq<u8>),
            Error,
        >((m, rest)),
    decreases m, 0nat,
{
    if m.len() > 0 {
        let t = m.subrange(1, m.len() as int);
        let tail = encode_entries(t) + rest;
        let s = encode_entries(m) + rest;
        assert(s =~= encoding(m[0].0) + (encoding(m[0].1) + tail));
        lemma_parse_encoding(m[0].0, encoding(m[0].1) + tail);
        lemma_parse_encoding(m[0].1, tail);
        lemma_encoding_nonempty(m[0].0);
        lemma_encoding_nonempty(m[0].1);
        lemma_parse_pairs_encoding(t, rest);
        assert(seq![(m[0].0, m[0].1)] + t =~= m);
    } else {
        assert(encode_entries(m) + rest =~= rest);
        assert(m =~= Seq::<(Value, Value)>::empty());
    }
}

/// Structural equality is reflexive on values whose maps have unique keys.
proof fn lemma_equiv_refl(v: Value)
    requires
        keys_unique(v),
    ensures
        equiv(v, v),
    decreases v,
{
    match v {
        Value::Array(x) => {
            assert forall|i: int| 0 <= i < x.len() implies equiv(#[trigger] x[i], x[i]) by {
                lemma_equiv_refl(x[i]);
            }
        },
        Value::Mapping(m) => {
            assert forall|i: int| 0 <= i < m.len() implies entry_found(m, #[trigger] m[i]) by {
                lemma_equiv_refl(m[i].0);
                lemma_equiv_refl(m[i].1);
                lemma_key_index(m, m[i].0);
                lemma_key_index(m.take(i), m[i].0);
                let j = key_index(m, m[i].0);
                if j != i {
                    assert(m.take(i)[j] == m[j]);
                }
            }
        },
        _ => {},
    }
}

/// Building a map by insertions keeps its keys distinct, takes no more
/// entries than pairs, and takes its keys and values from the pairs.
proof fn lemma_map_of_well_formed(ps: Seq<(Value, Value)>)
    requires
        forall|j: int| 0 <= j < ps.len() ==> well_formed(#[trigger] ps[j].0) && well_formed(ps[j].1),
    ensures
        distinct_keys(map_of(ps)),
        map_of(ps).len() <= ps.len(),
        forall|i: int|
            0 <= i < map_of(ps).len() ==> well_formed(#[trigger] map_of(ps)[i].0) && well_formed(
                map_of(ps)[i].1,
            ),
    decreases ps.len(),
{
    if ps.len() > 0 {
        let p = ps.subrange(0, ps.len() - 1);
        let (k, v) = ps[ps.len() - 1];
        assert forall|j: int| 0 <= j < p.len() implies well_formed(#[trigger] p[j].0) && well_formed(p[j].1) by {
            assert(p[j] == ps[j]);
        }
        lemma_map_of_well_formed(p);
        let m = map_of(p);
        assert(map_of(ps) == map_insert(m, k, v));
        lemma_map_insert_distinct(m, k, v);
    }
}

/// Decoded text re-encodes to the bytes it came from.
proof fn lemma_parse_str_well_formed(r: Seq<u8>, n: nat)
    requires
        n <= 0xffff_ffff,
    ensures
        parse_str(r, n) matches Ok((v, r2)) ==> well_formed(v),
{
    if r.len() >= n && valid_utf8(r.take(n as int)) {
        decode_utf8_encode_utf8(r.take(n as int));
    }
}

/// Every decoded value is well formed.
proof fn lemma_parse_well_formed(s: Seq<u8>)
    ensures
        parse(s) matches Ok((v, r)) ==> well_formed(v),
    decreases s.len(), 0nat, 0nat,
{
    if s.len() > 0 {
        let tag = s[0];
        let r = s.skip(1);
        if 0x80 <= tag <= 0x8f {
            lemma_map_well_formed(r, (tag - 0x80) as nat);
        } else if 0x90 <= tag <= 0x9f {
            lemma_items_well_formed(r, (tag - 0x90) as nat);
            lemma_items_len(r, (tag - 0x90) as nat);
        } else if 0xb0 <= tag <= 0xbf {
            lemma_parse_str_well_formed(r, (tag - 0xb0) as nat);
        } else if 0xc0 <= tag < 0xe0 {
            lemma_table_well_formed(tag, r);
        }
    }
}

/// Every value decoded after a tag of the explicit table is well formed.
proof fn lemma_table_well_formed(tag: u8, r: Seq<u8>)
    ensures
        parse_table(tag, r) matches Ok((v, r2)) ==> well_formed(v),
    decreases r.len(), 3nat, 0nat,
{
    lemma_prefixed_well_formed(tag, r);
}

/// Every value decoded after a length-prefixed tag is well formed.
proof fn lemma_prefixed_well_formed(tag: u8, r: Seq<u8>)
    ensures
        parse_prefixed(tag, r) matches Ok((v, r2)) ==> well_formed(v),
    decreases r.len(), 2nat, 1nat,
{
    let w = length_width(tag);
    if PACKED_STR_U16 <= tag <= PACKED_MAP_U32 && r.len() >= w {
        let n = be_value(r.take(w as int));
        let r2 = r.skip(w as int);
        lemma_be_value_bound(r.take(w as int));
        lemma_pow256_widths();
        lemma_parse_str_well_formed(r2, n);
        lemma_items_well_formed(r2, n);
        lemma_items_len(r2, n);
        lemma_map_well_formed(r2, n);
    }
}

/// Every item decoded by `parse_items` is well formed.
proof fn lemma_items_well_formed(s: Seq<u8>, n: nat)
    ensures
        parse_items(s, n) matches Ok((vs, r)) ==> forall|i: int|
            0 <= i < vs.len() ==> well_formed(#[trigger] vs[i]),
    decreases s.len(), 1nat, n,
{
    if n > 0 {
        lemma_parse_well_formed(s);
        if let Ok((v, r1)) = parse(s) {
            if r1.len() < s.len() {
                lemma_items_well_formed(r1, (n - 1) as nat);
                if let Ok((vs, r2)) = parse_items(r1, (n - 1) as nat) {
                    let all = seq![v] + vs;
                    assert forall|i: int| 0 <= i < all.len() implies well_formed(#[trigger] all[i]) by {
                        if i > 0 {
                            assert(all[i] == vs[i - 1]);
                        }
                    }
                }
            }
        }
    }
}

/// Every key and value decoded by `parse_pairs` is well formed.
proof fn lemma_pairs_well_formed(s: Seq<u8>, n: nat)
    ensures
        parse_pairs(s, n) matches Ok((ps, r)) ==> forall|i: int|
            0 <= i < ps.len() ==> well_formed(#[trigger] ps[i].0) && well_formed(ps[i].1),
    decreases s.len(), 1nat, n,
{
    if n > 0 {
        lemma_parse_well_formed(s);
        if let Ok((k, r1)) = parse(s) {
            if r1.len() < s.len() {
                lemma_parse_well_formed(r1);
                if let Ok((v, r2)) = parse(r1) {
                    if r2.len() < r1.len() {
                        lemma_pairs_well_formed(r2, (n - 1) as nat);
                        if let Ok((ps, r3)) = parse_pairs(r2, (n - 1) as nat) {
                            let all = seq![(k, v)] + ps;
                            assert forall|i: int| 0 <= i < all.len() implies well_formed(
                                #[trigger] all[i].0,
                            ) && well_formed(all[i].1) by {
                                if i > 0 {
                                    assert(all[i] == ps[i - 1]);
                                }
                            }
                        }
                    }
                }
            }
        }
    }
}

/// A decoded map of `n` declared pairs is well formed.
proof fn lemma_map_well_formed(s: Seq<u8>, n: nat)
    requires
        n <= 0xffff_ffff,
    ensures
        parse_map(s, n) matches Ok((v, r)) ==> well_formed(v),
    decreases s.len(), 2nat, 0nat,
{
    lemma_pairs_well_formed(s, n);
    lemma_pairs_len(s, n);
    if let Ok((ps, r)) = parse_pairs(s, n) {
        lemma_map_of_well_formed(ps);
    }
}

/// A well-formed value can be encoded.
proof fn lemma_well_formed_encodable(v: Value)
    requires
        well_formed(v),
    ensures
        encodable(v),
    decreases v,
{
    match v {
        Value::Array(x) => {
            assert forall|i: int| 0 <= i < x.len() implies encodable(#[trigger] x[i]) by {
                lemma_well_formed_encodable(x[i]);
            }
        },
        Value::Mapping(m) => {
            assert forall|i: int| 0 <= i < m.len() implies encodable(#[trigger] m[i].0) && encodable(m[i].1) by {
                lemma_well_formed_encodable(m[i].0);
                lemma_well_formed_encodable(m[i].1);
            }
        },
        _ => {},
    }
}

/// Round trip: decoding the encoding of a well-formed value that holds no
/// `Undefined` gives back that very value, which is structurally equal to the
/// value encoded; bytes that follow the encoding are left unread.
pub proof fn lemma_round_trip(v: Value, rest: Seq<u8>)
    requires
        well_formed(v),
        free_of_undefined(v),
    ensures
        parse(encoding(v) + rest) == Ok::<(Value, Seq<u8>), Error>((v, rest)),
        parse(encoding(v)) matches Ok((w, r)) && w == v && equiv(w, v) && r.len() == 0,
{
    lemma_parse_encoding(v, rest);
    lemma_parse_encoding(v, Seq::empty());
    assert(encoding(v) + Seq::<u8>::empty() =~= encoding(v));
    lemma_well_formed_parts(v);
    lemma_equiv_refl(v);
}

/// Fixed point: a value decoded from any bytes is well formed and can be
/// encoded, and when it holds no `Undefined`, decoding its encoding gives a
/// value equal to it.
pub proof fn lemma_decode_fixed_point(s: Seq<u8>)
    ensures
        match parse(s) {
            Ok((v, r)) => {
                &&& well_formed(v)
                &&& encodable(v)
                &&& free_of_undefined(v) ==> parse(encoding(v)) == Ok::<(Value, Seq<u8>), Error>(
                    (v, Seq::empty()),
                ) && equiv(v, v)
            },
            Err(_) => true,
        },
{
    lemma_parse_well_formed(s);
    if let Ok((v, r)) = parse(s) {
        lemma_well_formed_encodable(v);
        if free_of_undefined(v) {
            lemma_round_trip(v, Seq::empty());
            assert(encoding(v) + Seq::<u8>::empty() =~= encoding(v));
        }
    }
}

/// Fewer bytes than declared items never decode as that many items.
proof fn lemma_items_short(s: Seq<u8>, n: nat)
    requires
        s.len() < n,
    ensures
        parse_items(s, n) is Err,
    decreases n,
{
    lemma_parse_shrinks(s);
    if let Ok((v, r1)) = parse(s) {
        lemma_items_short(r1, (n - 1) as nat);
    }
}

/// Fewer bytes than declared pairs never decode as that many pairs.
proof fn lemma_pairs_short(s: Seq<u8>, n: nat)
    requires
        s.len() < n,
    ensures
        parse_pairs(s, n) is Err,
    decreases n,
{
    lemma_parse_shrinks(s);
    if let Ok((k, r1)) = parse(s) {
        lemma_parse_shrinks(r1);
        if let Ok((v, r2)) = parse(r1) {
            lemma_pairs_short(r2, (n - 1) as nat);
        }
    }
}

/// Truncated input: an empty buffer fails with `EndOfData`.
pub proof fn lemma_empty_input()
    ensures
        parse(Seq::empty()) == Err::<(Value, Seq<u8>), Error>(Error::EndOfData),
{
}

/// Truncated input: a length prefix cut short fails with `EndOfData`.
pub proof fn lemma_truncated_length(tag: u8, r: Seq<u8>)
    requires
        PACKED_STR_U16 <= tag <= PACKED_MAP_U32,
        r.len() < length_width(tag),
    ensures
        parse(seq![tag] + r) == Err::<(Value, Seq<u8>), Error>(Error::EndOfData),
{
    let s = seq![tag] + r;
    assert(s.skip(1) =~= r);
    assert(parse(s) == parse_table(tag, r));
    assert(parse_table(tag, r) == parse_prefixed(tag, r));
}

/// Truncated input: a container whose header declares more items than bytes
/// follow it never decodes; for raw bytes and text it fails with `EndOfData`.
pub proof fn lemma_truncated_container(
    fixed: u8,
    tag16: u8,
    tag32: u8,
    n: nat,
    payload: Seq<u8>,
)
    requires
        n <= 0xffff_ffff,
        payload.len() < n,
        (fixed == MAP_MASK && tag16 == PACKED_MAP_U16 && tag32 == PACKED_MAP_U32) || (fixed
            == ARR_MASK && tag16 == PACKED_ARR_U16 && tag32 == PACKED_ARR_U32) || (fixed
            == RAW_MASK && tag16 == PACKED_RAW_U16 && tag32 == PACKED_RAW_U32) || (fixed
            == STR_MASK && tag16 == PACKED_STR_U16 && tag32 == PACKED_STR_U32),
    ensures
        parse(length_header(fixed, tag16, tag32, n) + payload) is Err,
        fixed == RAW_MASK || fixed == STR_MASK ==> parse(length_header(fixed, tag16, tag32, n)
            + payload) == Err::<(Value, Seq<u8>), Error>(Error::EndOfData),
{
    lemma_parse_header(fixed, tag16, tag32, n, payload);
    lemma_items_short(payload, n);
    lemma_pairs_short(payload, n);
}

/// Reflexivity: every value is structurally equal to itself.
pub proof fn lemma_eq_reflexive(u: Unpacked)
    ensures
        equiv(u@, u@),
{
    lemma_view_keys_unique(u);
    lemma_equiv_refl(u@);
}

/// Round trip on values: for every value whose lengths fit the format and
/// that holds no `Undefined`, decoding its encoding gives back a value with
/// the same view, structurally equal to it, and consumes every byte.
pub proof fn lemma_pack_round_trip(u: Unpacked)
    requires
        encodable(u@),
        free_of_undefined(u@),
    ensures
        well_formed(u@),
        parse(encoding(u@)) == Ok::<(Value, Seq<u8>), Error>((u@, Seq::empty())),
        equiv(u@, u@),
{
    lemma_view_keys_unique(u);
    lemma_well_formed_parts(u@);
    lemma_round_trip(u@, Seq::empty());
    assert(encoding(u@) + Seq::<u8>::empty() =~= encoding(u@));
}

/// Bytes after a fixed-width read do not change it.
proof fn lemma_read_extend(s: Seq<u8>, t: Seq<u8>, w: nat)
    ensures
        read_uint(s, w) matches Ok((n, r)) ==> read_uint(s + t, w) == Ok::<(nat, Seq<u8>), Error>(
            (n, r + t),
        ),
        read_bytes(s, w) matches Ok((b, r)) ==> read_bytes(s + t, w) == Ok::<
            (Seq<u8>, Seq<u8>),
            Error,
        >((b, r + t)),
{
    if s.len() >= w {
        assert((s + t).take(w as int) =~= s.take(w as int));
        assert((s + t).skip(w as int) =~= s.skip(w as int) + t);
    }
}

/// Trailing bytes: bytes after a value that decodes do not change the value,
/// and stay unread.
pub proof fn lemma_parse_extend(s: Seq<u8>, t: Seq<u8>)
    ensures
        parse(s) matches Ok((v, r)) ==> parse(s + t) == Ok::<(Value, Seq<u8>), Error>((v, r + t)),
    decreases s.len(), 0nat, 0nat,
{
    if s.len() > 0 {
        let tag = s[0];
        let r = s.skip(1);
        assert((s + t)[0] == tag);
        assert((s + t).skip(1) =~= r + t);
        if 0x80 <= tag <= 0x8f {
            lemma_pairs_extend(r, t, (tag - 0x80) as nat);
        } else if 0x90 <= tag <= 0x9f {
            lemma_items_extend(r, t, (tag - 0x90) as nat);
        } else if 0xa0 <= tag <= 0xbf {
            lemma_read_extend(r, t, (tag - 0xa0) as nat);
            lemma_read_extend(r, t, (tag - 0xb0) as nat);
        } else if 0xc0 <= tag < 0xe0 {
            lemma_table_extend(tag, r, t);
            assert(parse(s) == parse_table(tag, r));
            assert(parse(s + t) == parse_table(tag, r + t));
        }
    }
}

/// Trailing bytes do not change a value decoded after a table tag.
proof fn lemma_table_extend(tag: u8, r: Seq<u8>, t: Seq<u8>)
    ensures
        parse_table(tag, r) matches Ok((v, r2)) ==> parse_table(tag, r + t) == Ok::<
            (Value, Seq<u8>),
            Error,
        >((v, r2 + t)),
    decreases r.len(), 3nat, 0nat,
{
    lemma_read_extend(r, t, 1);
    lemma_read_extend(r, t, 2);
    lemma_read_extend(r, t, 4);
    lemma_read_extend(r, t, 8);
    lemma_prefixed_extend(tag, r, t);
}

/// Trailing bytes do not change a value decoded after a length-prefixed tag.
proof fn lemma_prefixed_extend(tag: u8, r: Seq<u8>, t: Seq<u8>)
    ensures
        parse_prefixed(tag, r) matches Ok((v, r2)) ==> parse_prefixed(tag, r + t) == Ok::<
            (Value, Seq<u8>),
            Error,
        >((v, r2 + t)),
    decreases r.len(), 2nat, 1nat,
{
    let w = length_width(tag);
    if PACKED_STR_U16 <= tag <= PACKED_MAP_U32 && r.len() >= w {
        lemma_read_extend(r, t, w);
        let n = be_value(r.take(w as int));
        let r2 = r.skip(w as int);
        lemma_read_extend(r2, t, n);
        lemma_items_extend(r2, t, n);
        lemma_pairs_extend(r2, t, n);
    }
}

/// Trailing bytes do not change decoded items.
proof fn lemma_items_extend(s: Seq<u8>, t: Seq<u8>, n: nat)
    ensures
        parse_items(s, n) matches Ok((vs, r)) ==> parse_items(s + t, n) == Ok::<
            (Seq<Value>, Seq<u8>),
            Error,
        >((vs, r + t)),
    decreases s.len(), 1nat, n,
{
    if n > 0 {
        lemma_parse_extend(s, t);
        if let Ok((v, r1)) = parse(s) {
            if r1.len() < s.len() {
                lemma_items_extend(r1, t, (n - 1) as nat);
            }
        }
    }
}

/// Trailing bytes do not change decoded pairs.
proof fn lemma_pairs_extend(s: Seq<u8>, t: Seq<u8>, n: nat)
    ensures
        parse_pairs(s, n) matches Ok((ps, r)) ==> parse_pairs(s + t, n) == Ok::<
            (Seq<(Value, Value)>, Seq<u8>),
            Error,
        >((ps, r + t)),
    decreases s.len(), 1nat, n,
{
    if n > 0 {
        lemma_parse_extend(s, t);
        if let Ok((k, r1)) = parse(s) {
            if r1.len() < s.len() {
                lemma_parse_extend(r1, t);
                if let Ok((v, r2)) = parse(r1) {
                    if r2.len() < r1.len() {
                        lemma_pairs_extend(r2, t, (n - 1) as nat);
                    }
                }
            }
        }
    }
}

/// A length header cut short fails with `EndOfData`.
proof fn lemma_header_prefix(fixed: u8, tag16: u8, tag32: u8, n: nat, k: int)
    requires
        n <= 0xffff_ffff,
        (fixed == MAP_MASK && tag16 == PACKED_MAP_U16 && tag32 == PACKED_MAP_U32) || (fixed
            == ARR_MASK && tag16 == PACKED_ARR_U16 && tag32 == PACKED_ARR_U32) || (fixed
            == RAW_MASK && tag16 == PACKED_RAW_U16 && tag32 == PACKED_RAW_U32) || (fixed
            == STR_MASK && tag16 == PACKED_STR_U16 && tag32 == PACKED_STR_U32),
        0 <= k < length_header(fixed, tag16, tag32, n).len(),
    ensures
        parse(length_header(fixed, tag16, tag32, n).take(k)) == Err::<(Value, Seq<u8>), Error>(
            Error::EndOfData,
        ),
{
    let h = length_header(fixed, tag16, tag32, n);
    lemma_pow256_widths();
    if k > 0 {
        if n <= 0xffff {
            lemma_be_round_trip(n, 2);
            assert(h.take(k) =~= seq![tag16] + be_bytes(n, 2).take(k - 1));
            lemma_truncated_length(tag16, be_bytes(n, 2).take(k - 1));
        } else {
            lemma_be_round_trip(n, 4);
            assert(h.take(k) =~= seq![tag32] + be_bytes(n, 4).take(k - 1));
            lemma_truncated_length(tag32, be_bytes(n, 4).take(k - 1));
        }
    }
}

/// A cut inside the bytes of a fixed-width scalar fails with `EndOfData`.
#[verifier::rlimit(50)]
proof fn lemma_prefix_scalar(v: Value, k: int)
    requires
        !(v is Raw || v is Str || v is Array || v is Mapping),
        0 <= k < encoding(v).len(),
    ensures
        parse(encoding(v).take(k)) == Err::<(Value, Seq<u8>), Error>(Error::EndOfData),
{
    let s = encoding(v).take(k);
    lemma_pow256_widths();
    if k > 0 {
        assert(s[0] == encoding(v)[0]);
        assert(s.skip(1).len() == k - 1);
        match v {
            Value::Uint16(x) => lemma_be_round_trip(x as nat, 2),
            Value::Uint32(x) => lemma_be_round_trip(x as nat, 4),
            Value::Uint64(x) => lemma_be_round_trip(x as nat, 8),
            Value::Int16(x) => lemma_be_round_trip((#[verifier::truncate] (x as u16)) as nat, 2),
            Value::Int32(x) => lemma_be_round_trip((#[verifier::truncate] (x as u32)) as nat, 4),
            Value::Int64(x) => lemma_be_round_trip((#[verifier::truncate] (x as u64)) as nat, 8),
            Value::Float(x) => lemma_be_round_trip(x as nat, 4),
            Value::Double(x) => lemma_be_round_trip(x as nat, 8),
            _ => {},
        }
        assert(parse(s) == parse_table(s[0], s.skip(1)));
    }
}

/// Raw bytes or text cut short fail with `EndOfData`.
proof fn lemma_prefix_bytes(fixed: u8, tag16: u8, tag32: u8, b: Seq<u8>, k: int)
    requires
        b.len() <= 0xffff_ffff,
        (fixed == RAW_MASK && tag16 == PACKED_RAW_U16 && tag32 == PACKED_RAW_U32) || (fixed
            == STR_MASK && tag16 == PACKED_STR_U16 && tag32 == PACKED_STR_U32),
        0 <= k < length_header(fixed, tag16, tag32, b.len()).len() + b.len(),
    ensures
        parse((length_header(fixed, tag16, tag32, b.len()) + b).take(k)) == Err::<
            (Value, Seq<u8>),
            Error,
        >(Error::EndOfData),
{
    let h = length_header(fixed, tag16, tag32, b.len());
    if k < h.len() {
        assert((h + b).take(k) =~= h.take(k));
        lemma_header_prefix(fixed, tag16, tag32, b.len(), k);
    } else {
        let tail = b.take(k - h.len());
        assert((h + b).take(k) =~= h + tail);
        lemma_parse_header(fixed, tag16, tag32, b.len(), tail);
    }
}

/// Every strict prefix of the encoding of a well-formed value that holds no
/// `Undefined` fails to decode with `EndOfData`.
pub proof fn lemma_prefix_truncated(v: Value, k: int)
    requires
        well_formed(v),
        free_of_undefined(v),
        0 <= k < encoding(v).len(),
    ensures
        parse(encoding(v).take(k)) == Err::<(Value, Seq<u8>), Error>(Error::EndOfData),
    decreases v, 2nat,
{
    match v {
        Value::Raw(b) => lemma_prefix_bytes(RAW_MASK, PACKED_RAW_U16, PACKED_RAW_U32, b, k),
        Value::Str(c) => lemma_prefix_bytes(
            STR_MASK,
            PACKED_STR_U16,
            PACKED_STR_U32,
            encode_utf8(c),
            k,
        ),
        Value::Array(x) => lemma_prefix_array(x, k),
        Value::Mapping(m) => lemma_prefix_map(m, k),
        _ => lemma_prefix_scalar(v, k),
    }
}

/// An array's encoding cut short fails with `EndOfData`.
proof fn lemma_prefix_array(x: Seq<Value>, k: int)
    requires
        well_formed(Value::Array(x)),
        free_of_undefined(Value::Array(x)),
        0 <= k < encoding(Value::Array(x)).len(),
    ensures
        parse(encoding(Value::Array(x)).take(k)) == Err::<(Value, Seq<u8>), Error>(
            Error::EndOfData,
        ),
    decreases x, 1nat,
{
    let h = length_header(ARR_MASK, PACKED_ARR_U16, PACKED_ARR_U32, x.len());
    let e = encode_items(x);
    assert(encoding(Value::Array(x)) == h + e);
    if k < h.len() {
        assert((h + e).take(k) =~= h.take(k));
        lemma_header_prefix(ARR_MASK, PACKED_ARR_U16, PACKED_ARR_U32, x.len(), k);
    } else {
        let tail = e.take(k - h.len());
        assert((h + e).take(k) =~= h + tail);
        lemma_parse_header(ARR_MASK, PACKED_ARR_U16, PACKED_ARR_U32, x.len(), tail);
        lemma_prefix_items(x, k - h.len());
    }
}

/// A map's encoding cut short fails with `EndOfData`.
proof fn lemma_prefix_map(m: Seq<(Value, Value)>, k: int)
    requires
        well_formed(Value::Mapping(m)),
        free_of_undefined(Value::Mapping(m)),
        0 <= k < encoding(Value::Mapping(m)).len(),
    ensures
        parse(encoding(Value::Mapping(m)).take(k)) == Err::<(Value, Seq<u8>), Error>(
            Error::EndOfData,
        ),
    decreases m, 1nat,
{
    let h = length_header(MAP_MASK, PACKED_MAP_U16, PACKED_MAP_U32, m.len());
    let e = encode_entries(m);
    assert(encoding(Value::Mapping(m)) == h + e);
    if k < h.len() {
        assert((h + e).take(k) =~= h.take(k));
        lemma_header_prefix(MAP_MASK, PACKED_MAP_U16, PACKED_MAP_U32, m.len(), k);
    } else {
        let tail = e.take(k - h.len());
        assert((h + e).take(k) =~= h + tail);
        lemma_parse_header(MAP_MASK, PACKED_MAP_U16, PACKED_MAP_U32, m.len(), tail);
        lemma_prefix_pairs(m, k - h.len());
    }
}

/// The encodings of items cut short fail with `EndOfData`.
proof fn lemma_prefix_items(x: Seq<Value>, j: int)
    requires
        forall|i: int| 0 <= i < x.len() ==> well_formed(#[trigger] x[i]) && free_of_undefined(x[i]),
        0 <= j < encode_items(x).len(),
    ensures
        parse_items(encode_items(x).take(j), x.len()) == Err::<(Seq<Value>, Seq<u8>), Error>(
            Error::EndOfData,
        ),
    decreases x, 0nat,
{
    let t = x.subrange(1, x.len() as int);
    let e0 = encoding(x[0]);
    let et = encode_items(t);
    assert(encode_items(x) == e0 + et);
    if j < e0.len() {
        assert((e0 + et).take(j) =~= e0.take(j));
        lemma_prefix_truncated(x[0], j);
    } else {
        let rest = et.take(j - e0.len());
        assert((e0 + et).take(j) =~= e0 + rest);
        lemma_parse_encoding(x[0], rest);
        lemma_encoding_nonempty(x[0]);
        lemma_prefix_items(t, j - e0.len());
    }
}

/// The encodings of entries cut short fail with `EndOfData`.
proof fn lemma_prefix_pairs(m: Seq<(Value, Value)>, j: int)
    requires
        forall|i: int|
            0 <= i < m.len() ==> well_formed(#[trigger] m[i].0) && well_formed(m[i].1)
                && free_of_undefined(m[i].0) && free_of_undefined(m[i].1),
        0 <= j < encode_entries(m).len(),
    ensures
        parse_pairs(encode_entries(m).take(j), m.len()) == Err::<
            (Seq<(Value, Value)>, Seq<u8>),
            Error,
        >(Error::EndOfData),
    decreases m, 0nat,
{
    let t = m.subrange(1, m.len() as int);
    let ek = encoding(m[0].0);
    let ev = encoding(m[0].1);
    let et = encode_entries(t);
    assert(encode_entries(m) == ek + ev + et);
    lemma_encoding_nonempty(m[0].0);
    lemma_encoding_nonempty(m[0].1);
    if j < ek.len() {
        assert((ek + ev + et).take(j) =~= ek.take(j));
        lemma_prefix_truncated(m[0].0, j);
    } else if j < ek.len() + ev.len() {
        let rest = ev.take(j - ek.len());
        assert((ek + ev + et).take(j) =~= ek + rest);
        lemma_parse_encoding(m[0].0, rest);
        lemma_prefix_truncated(m[0].1, j - ek.len());
    } else {
        let rest = et.take(j - ek.len() - ev.len());
        assert((ek + ev + et).take(j) =~= ek + (ev + rest));
        lemma_parse_encoding(m[0].0, ev + rest);
        lemma_parse_encoding(m[0].1, rest);
        lemma_prefix_pairs(t, j - ek.len() - ev.len());
    }
}

} // verus!
