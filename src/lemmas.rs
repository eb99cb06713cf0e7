use crate::model::{
    be_bytes, be_value, distinct_keys, encodable, equiv, key_index, keys_unique, well_formed, map_insert, map_of, length_width, parse, parse_items, parse_pairs, parse_prefixed,
    parse_table, pow256,
    Value, PACKED_MAP_U32, PACKED_STR_U16,
};
use vstd::prelude::*;

verus! {

/// `key_index` gives the first index whose key is equal to `k`, or -1 when
/// there is none.
pub proof fn lemma_key_index(m: Seq<(Value, Value)>, k: Value)
    ensures
        -1 <= key_index(m, k) < m.len(),
        key_index(m, k) >= 0 ==> equiv(k, m[key_index(m, k)].0),
        forall|j: int|
            0 <= j < m.len() && (key_index(m, k) < 0 || j < key_index(m, k)) ==> !equiv(
                k,
                #[trigger] m[j].0,
            ),
    decreases m.len(),
{
    if m.len() > 0 && !equiv(k, m[0].0) {
        let t = m.subrange(1, m.len() as int);
        lemma_key_index(t, k);
        assert forall|j: int|
            0 <= j < m.len() && (key_index(m, k) < 0 || j < key_index(m, k)) implies !equiv(
                k,
                #[trigger] m[j].0,
            ) by {
            if j > 0 {
                assert(m[j] == t[j - 1]);
            }
        }
    }
}

/// `key_index` looks at keys only.
pub proof fn lemma_key_index_keys(m1: Seq<(Value, Value)>, m2: Seq<(Value, Value)>, k: Value)
    requires
        m1.len() == m2.len(),
        forall|j: int| 0 <= j < m1.len() ==> #[trigger] m1[j].0 == m2[j].0,
    ensures
        key_index(m1, k) == key_index(m2, k),
    decreases m1.len(),
{
    if m1.len() > 0 {
        let t1 = m1.subrange(1, m1.len() as int);
        let t2 = m2.subrange(1, m2.len() as int);
        assert forall|j: int| 0 <= j < t1.len() implies #[trigger] t1[j].0 == t2[j].0 by {
            assert(m1[j + 1].0 == m2[j + 1].0);
        }
        lemma_key_index_keys(t1, t2, k);
    }
}

/// Reading one more byte multiplies by 256 and adds the byte.
pub proof fn lemma_be_value_step(s: Seq<u8>, i: int)
    requires
        0 <= i < s.len(),
    ensures
        be_value(s.take(i + 1)) == be_value(s.take(i)) * 256 + s[i],
{
    assert(s.take(i + 1).subrange(0, i) =~= s.take(i));
}

/// `width` bytes spell a number below `256^width`.
pub proof fn lemma_be_value_bound(s: Seq<u8>)
    ensures
        be_value(s) < pow256(s.len()),
    decreases s.len(),
{
    if s.len() > 0 {
        lemma_be_value_bound(s.subrange(0, s.len() - 1));
    }
}

/// `256^n` for the widths that the format uses.
pub proof fn lemma_pow256_widths()
    ensures
        pow256(0) == 1,
        pow256(1) == 0x100,
        pow256(2) == 0x1_0000,
        pow256(4) == 0x1_0000_0000,
        pow256(8) == 0x1_0000_0000_0000_0000,
        forall|n: nat| n < 8 ==> #[trigger] pow256(n) <= 0x100_0000_0000_0000,
{
    reveal_with_fuel(pow256, 9);
}

/// Spelling a number in `width` bytes and reading them back gives the number.
pub proof fn lemma_be_round_trip(n: nat, width: nat)
    requires
        n < pow256(width),
    ensures
        be_bytes(n, width).len() == width,
        be_value(be_bytes(n, width)) == n,
    decreases width,
{
    if width > 0 {
        lemma_be_round_trip(n / 256, (width - 1) as nat);
        let b = be_bytes(n, width);
        assert(b.subrange(0, b.len() - 1) =~= be_bytes(n / 256, (width - 1) as nat));
    }
}

/// Decoding `n` items consumes bytes from the front and yields `n` values.
pub proof fn lemma_items_len(s: Seq<u8>, n: nat)
    ensures
        parse_items(s, n) matches Ok((vs, r)) ==> vs.len() == n && r.len() <= s.len(),
    decreases n,
{
    if n > 0 {
        if let Ok((v, r1)) = parse(s) {
            if r1.len() < s.len() {
                lemma_items_len(r1, (n - 1) as nat);
            }
        }
    }
}

/// Decoding `n` pairs consumes bytes from the front and yields `n` pairs.
pub proof fn lemma_pairs_len(s: Seq<u8>, n: nat)
    ensures
        parse_pairs(s, n) matches Ok((ps, r)) ==> ps.len() == n && r.len() <= s.len(),
    decreases n,
{
    if n > 0 {
        if let Ok((k, r1)) = parse(s) {
            if let Ok((v, r2)) = parse(r1) {
                if r1.len() < s.len() && r2.len() < r1.len() {
                    lemma_pairs_len(r2, (n - 1) as nat);
                }
            }
        }
    }
}

/// Decoding after a length-prefixed tag consumes bytes from the front.
pub proof fn lemma_prefixed_len(tag: u8, r: Seq<u8>)
    ensures
        parse_prefixed(tag, r) matches Ok((v, r2)) ==> r2.len() <= r.len(),
{
    let w = length_width(tag);
    if PACKED_STR_U16 <= tag <= PACKED_MAP_U32 && r.len() >= w {
        lemma_items_len(r.skip(w as int), be_value(r.take(w as int)));
        lemma_pairs_len(r.skip(w as int), be_value(r.take(w as int)));
    }
}

/// Decoding after a tag of the explicit table consumes bytes from the front.
pub proof fn lemma_table_len(tag: u8, r: Seq<u8>)
    ensures
        parse_table(tag, r) matches Ok((v, r2)) ==> r2.len() <= r.len(),
{
    lemma_prefixed_len(tag, r);
}

/// Decoding a value consumes at least its tag byte.
pub proof fn lemma_parse_shrinks(s: Seq<u8>)
    ensures
        parse(s) matches Ok((v, r)) ==> r.len() < s.len(),
{
    if s.len() > 0 {
        let tag = s[0];
        let r = s.skip(1);
        if 0x80 <= tag <= 0x8f {
            lemma_pairs_len(r, (tag - 0x80) as nat);
        } else if 0x90 <= tag <= 0x9f {
            lemma_items_len(r, (tag - 0x90) as nat);
        } else {
            lemma_table_len(tag, r);
        }
    }
}

/// Inserting pairs with distinct keys in order rebuilds exactly those pairs.
pub proof fn lemma_map_of_distinct(m: Seq<(Value, Value)>)
    requires
        distinct_keys(m),
    ensures
        map_of(m) == m,
    decreases m.len(),
{
    if m.len() > 0 {
        let p = m.subrange(0, m.len() - 1);
        assert forall|j: int| 0 <= j < p.len() implies key_index(#[trigger] p.take(j), p[j].0) < 0 by {
            assert(p.take(j) =~= m.take(j));
        }
        lemma_map_of_distinct(p);
        assert(m.take(m.len() - 1) =~= p);
        assert(p.push(m[m.len() - 1]) =~= m);
    }
}

/// An insertion keeps the keys of a map distinct.
pub proof fn lemma_map_insert_distinct(m: Seq<(Value, Value)>, k: Value, v: Value)
    requires
        distinct_keys(m),
    ensures
        distinct_keys(map_insert(m, k, v)),
        map_insert(m, k, v).len() <= m.len() + 1,
{
    let m2 = map_insert(m, k, v);
    lemma_key_index(m, k);
    let j = key_index(m, k);
    if 0 <= j < m.len() {
        assert forall|t: int| 0 <= t < m2.len() implies key_index(#[trigger] m2.take(t), m2[t].0) < 0 by {
            assert(m2[t].0 == m[t].0);
            lemma_key_index_keys(m2.take(t), m.take(t), m[t].0);
        }
    } else {
        assert forall|t: int| 0 <= t < m2.len() implies key_index(#[trigger] m2.take(t), m2[t].0) < 0 by {
            if t < m.len() {
                assert(m2.take(t) =~= m.take(t));
            } else {
                assert(m2.take(t) =~= m);
            }
        }
    }
}

/// Building a map by insertions always gives distinct keys, and no more
/// entries than pairs.
pub proof fn lemma_map_of_keys(ps: Seq<(Value, Value)>)
    ensures
        distinct_keys(map_of(ps)),
        map_of(ps).len() <= ps.len(),
    decreases ps.len(),
{
    if ps.len() > 0 {
        let p = ps.subrange(0, ps.len() - 1);
        lemma_map_of_keys(p);
        let last = ps[ps.len() - 1];
        lemma_map_insert_distinct(map_of(p), last.0, last.1);
    }
}


/// Building a map by insertions takes its keys and values from the pairs, so
/// it keeps the keys of nested maps unique.
pub proof fn lemma_map_of_keys_unique(ps: Seq<(Value, Value)>)
    requires
        forall|j: int| 0 <= j < ps.len() ==> keys_unique(#[trigger] ps[j].0) && keys_unique(ps[j].1),
    ensures
        forall|i: int|
            0 <= i < map_of(ps).len() ==> keys_unique(#[trigger] map_of(ps)[i].0) && keys_unique(
                map_of(ps)[i].1,
            ),
    decreases ps.len(),
{
    if ps.len() > 0 {
        let p = ps.subrange(0, ps.len() - 1);
        let (k, v) = ps[ps.len() - 1];
        assert forall|j: int| 0 <= j < p.len() implies keys_unique(#[trigger] p[j].0) && keys_unique(p[j].1) by {
            assert(p[j] == ps[j]);
        }
        lemma_map_of_keys_unique(p);
        assert(map_of(ps) == map_insert(map_of(p), k, v));
    }
}


/// A value with unique keys whose lengths all fit is well formed, and a
/// well-formed value has unique keys.
pub proof fn lemma_well_formed_parts(v: Value)
    ensures
        well_formed(v) <==> encodable(v) && keys_unique(v),
    decreases v,
{
    match v {
        Value::Array(x) => {
            assert forall|i: int| 0 <= i < x.len() implies (well_formed(#[trigger] x[i]) <==> encodable(x[i])
                && keys_unique(x[i])) by {
                lemma_well_formed_parts(x[i]);
            }
        },
        Value::Mapping(m) => {
            assert forall|i: int| 0 <= i < m.len() implies (well_formed(#[trigger] m[i].0) <==> encodable(
                m[i].0,
            ) && keys_unique(m[i].0)) && (well_formed(m[i].1) <==> encodable(m[i].1) && keys_unique(
                m[i].1,
            )) by {
                lemma_well_formed_parts(m[i].0);
                lemma_well_formed_parts(m[i].1);
            }
        },
        _ => {},
    }
}

} // verus!
