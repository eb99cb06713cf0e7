use crate::error::Error;
use crate::lemmas::{
    lemma_be_value_bound, lemma_be_value_step, lemma_key_index, lemma_map_insert_distinct,
    lemma_map_of_distinct, lemma_map_of_keys, lemma_map_of_keys_unique, lemma_parse_shrinks,
    lemma_well_formed_parts,
    lemma_pow256_widths,
};
use crate::model::{
    be_bytes, be_value, distinct_keys, encodable, keys_unique, well_formed, encode_entries, encode_items, encoding, entry_found, length_header, equiv, key_index, map_insert, map_of, parse, parse_items, parse_pairs, parse_prefixed, parse_table,
    pow256, read_bytes, read_uint, Value, ARR_MASK, INT_MASK, MAP_MASK, PACKED_ARR_U16,
    PACKED_ARR_U32, PACKED_DOUBLE, PACKED_FALSE, PACKED_FLOAT, PACKED_INT16, PACKED_INT32,
    PACKED_INT64, PACKED_INT8, PACKED_MAP_U16, PACKED_MAP_U32, PACKED_NULL, PACKED_RAW_U16,
    PACKED_RAW_U32, PACKED_STR_U16, PACKED_STR_U32, PACKED_TRUE, PACKED_UINT16, PACKED_UINT32,
    PACKED_UINT64, PACKED_UINT8, RAW_MASK, STR_MASK,
};
use vstd::utf8::{decode_utf8, valid_utf8};
use std::string::FromUtf8Error;
use vstd::prelude::*;

verus! {

/// A decoded value, or one to encode.
///
/// `Float` and `Double` hold the IEEE-754 bit patterns of a binary32 and a
/// binary64 number. `Mapping` holds its entries in the order in which they are
/// kept, and its keys are unique under structural equality. `==` is
/// structural equality: floating point numbers compare by bit pattern, and map
/// entries in any order.
#[derive(Debug)]
pub enum Unpacked {
    Uint8(u8),
    Uint16(u16),
    Uint32(u32),
    Uint64(u64),
    Int8(i8),
    Int16(i16),
    Int32(i32),
    Int64(i64),
    Float(u32),
    Double(u64),
    Bool(bool),
    Raw(Vec<u8>),
    String(String),
    Null,
    Undefined,
    Array(Vec<Unpacked>),
    Mapping(UnpackedMap),
}

impl View for Unpacked {
    type V = Value;

    open spec fn view(&self) -> Value
        decreases self,
    {
        match self {
            Unpacked::Uint8(x) => Value::Uint8(*x),
            Unpacked::Uint16(x) => Value::Uint16(*x),
            Unpacked::Uint32(x) => Value::Uint32(*x),
            Unpacked::Uint64(x) => Value::Uint64(*x),
            Unpacked::Int8(x) => Value::Int8(*x),
            Unpacked::Int16(x) => Value::Int16(*x),
            Unpacked::Int32(x) => Value::Int32(*x),
            Unpacked::Int64(x) => Value::Int64(*x),
            Unpacked::Float(x) => Value::Float(*x),
            Unpacked::Double(x) => Value::Double(*x),
            Unpacked::Bool(b) => Value::Bool(*b),
            Unpacked::Raw(b) => Value::Raw(b@),
            Unpacked::String(s) => Value::Str(s@),
            Unpacked::Null => Value::Null,
            Unpacked::Undefined => Value::Undefined,
            Unpacked::Array(a) => Value::Array(view_items(a@)),
            Unpacked::Mapping(m) => Value::Mapping(m.pairs()),
        }
    }
}

/// A map whose keys are unique under structural equality, with its entries in
/// the order in which their keys were first inserted.
#[derive(Debug)]
pub struct UnpackedMap {
    entries: Vec<(Unpacked, Unpacked)>,
}

impl UnpackedMap {
    #[verifier::type_invariant]
    spec fn inv(&self) -> bool {
        distinct_keys(view_entries(self.entries@))
    }

    /// The entries, as the map that inserting them in order builds; the keys
    /// are distinct, so that map is the entries themselves.
    pub closed spec fn pairs(&self) -> Seq<(Value, Value)>
        decreases self,
    {
        map_of(view_entries(self.entries@))
    }
}

/// The views of the items of `s`.
pub open spec fn view_items(s: Seq<Unpacked>) -> Seq<Value>
    decreases s,
{
    if s.len() == 0 {
        Seq::empty()
    } else {
        seq![s[0]@] + view_items(s.subrange(1, s.len() as int))
    }
}

/// The views of the entries of `s`.
pub open spec fn view_entries(s: Seq<(Unpacked, Unpacked)>) -> Seq<(Value, Value)>
    decreases s,
{
    if s.len() == 0 {
        Seq::empty()
    } else {
        seq![(s[0].0@, s[0].1@)] + view_entries(s.subrange(1, s.len() as int))
    }
}

/// `view_items` views each item in place.
pub proof fn lemma_view_items(s: Seq<Unpacked>)
    ensures
        view_items(s).len() == s.len(),
        forall|i: int| 0 <= i < s.len() ==> #[trigger] view_items(s)[i] == s[i]@,
    decreases s.len(),
{
    if s.len() > 0 {
        let t = s.subrange(1, s.len() as int);
        lemma_view_items(t);
        assert(view_items(s) == seq![s[0]@] + view_items(t));
        assert forall|i: int| 0 <= i < s.len() implies #[trigger] view_items(s)[i] == s[i]@ by {
            if i > 0 {
                assert(s[i] == t[i - 1]);
            }
        }
    }
}

/// `view_entries` views each entry in place.
pub proof fn lemma_view_entries(s: Seq<(Unpacked, Unpacked)>)
    ensures
        view_entries(s).len() == s.len(),
        forall|i: int|
            0 <= i < s.len() ==> #[trigger] view_entries(s)[i] == (s[i].0@, s[i].1@),
    decreases s.len(),
{
    if s.len() > 0 {
        let t = s.subrange(1, s.len() as int);
        lemma_view_entries(t);
        assert(view_entries(s) == seq![(s[0].0@, s[0].1@)] + view_entries(t));
        assert forall|i: int| 0 <= i < s.len() implies #[trigger] view_entries(s)[i] == (
            s[i].0@,
            s[i].1@,
        ) by {
            if i > 0 {
                assert(s[i] == t[i - 1]);
            }
        }
    }
}

/// The keys of every map in the view of any value are unique.
pub proof fn lemma_view_keys_unique(u: Unpacked)
    ensures
        keys_unique(u@),
    decreases u,
{
    match u {
        Unpacked::Array(a) => {
            lemma_view_items(a@);
            assert forall|i: int| 0 <= i < a@.len() implies keys_unique(#[trigger] view_items(a@)[i]) by {
                assert(decreases_to!(a => a@));
                assert(decreases_to!(a@ => a@[i]));
                lemma_view_keys_unique(a@[i]);
            }
            assert(u@ == Value::Array(view_items(a@)));
        },
        Unpacked::Mapping(mm) => {
            let ps = view_entries(mm.entries@);
            lemma_view_entries(mm.entries@);
            assert forall|j: int| 0 <= j < ps.len() implies keys_unique(#[trigger] ps[j].0) && keys_unique(ps[j].1) by {
                assert(decreases_to!(mm => mm.entries));
                assert(decreases_to!(mm.entries => mm.entries@));
                assert(decreases_to!(mm.entries@ => mm.entries@[j]));
                assert(decreases_to!(mm.entries@[j] => mm.entries@[j].0));
                assert(decreases_to!(mm.entries@[j] => mm.entries@[j].1));
                lemma_view_keys_unique(mm.entries@[j].0);
                lemma_view_keys_unique(mm.entries@[j].1);
            }
            lemma_map_of_keys(ps);
            lemma_map_of_keys_unique(ps);
            assert(mm.pairs() == map_of(ps));
            assert(u@ == Value::Mapping(map_of(ps)));
        },
        _ => {},
    }
}

impl Unpacked {
    /// Structural equality: same variant and payload; arrays of one length
    /// with equal items in order; maps of one size where each entry of `self`
    /// finds an equal value under an equal key of `other`, in any order.
    fn structurally_equals(&self, other: &Unpacked) -> (r: bool)
        ensures
            r == equiv(self@, other@),
        decreases self, 0nat, 0nat,
    {
        match (self, other) {
            (Unpacked::Uint8(a), Unpacked::Uint8(b)) => *a == *b,
            (Unpacked::Uint16(a), Unpacked::Uint16(b)) => *a == *b,
            (Unpacked::Uint32(a), Unpacked::Uint32(b)) => *a == *b,
            (Unpacked::Uint64(a), Unpacked::Uint64(b)) => *a == *b,
            (Unpacked::Int8(a), Unpacked::Int8(b)) => *a == *b,
            (Unpacked::Int16(a), Unpacked::Int16(b)) => *a == *b,
            (Unpacked::Int32(a), Unpacked::Int32(b)) => *a == *b,
            (Unpacked::Int64(a), Unpacked::Int64(b)) => *a == *b,
            (Unpacked::Float(a), Unpacked::Float(b)) => *a == *b,
            (Unpacked::Double(a), Unpacked::Double(b)) => *a == *b,
            (Unpacked::Bool(a), Unpacked::Bool(b)) => *a == *b,
            (Unpacked::Raw(a), Unpacked::Raw(b)) => {
                if a.len() != b.len() {
                    return false;
                }
                let mut i: usize = 0;
                while i < a.len()
                    invariant
                        a.len() == b.len(),
                        i <= a.len(),
                        self@ == Value::Raw(a@),
                        other@ == Value::Raw(b@),
                        forall|j: int| 0 <= j < i ==> a@[j] == b@[j],
                    decreases a.len() - i,
                {
                    if a[i] != b[i] {
                        assert(a@[i as int] != b@[i as int]);
                        return false;
                    }
                    i += 1;
                }
                assert(a@ =~= b@);
                true
            },
            (Unpacked::String(a), Unpacked::String(b)) => *a == *b,
            (Unpacked::Null, Unpacked::Null) => true,
            (Unpacked::Undefined, Unpacked::Undefined) => true,
            (Unpacked::Array(a), Unpacked::Array(b)) => {
                proof {
                    lemma_view_items(a@);
                    lemma_view_items(b@);
                }
                if a.len() != b.len() {
                    return false;
                }
                let mut i: usize = 0;
                while i < a.len()
                    invariant
                        a.len() == b.len(),
                        i <= a.len(),
                        *self == Unpacked::Array(*a),
                        self@ == Value::Array(view_items(a@)),
                        other@ == Value::Array(view_items(b@)),
                        view_items(a@).len() == a.len(),
                        view_items(b@).len() == b.len(),
                        forall|k: int| 0 <= k < a.len() ==> #[trigger] view_items(a@)[k] == a@[k]@,
                        forall|k: int| 0 <= k < b.len() ==> #[trigger] view_items(b@)[k] == b@[k]@,
                        forall|j: int|
                            0 <= j < i ==> equiv(#[trigger] view_items(a@)[j], view_items(b@)[j]),
                    decreases a.len() - i,
                {
                    proof {
                        assert(decreases_to!(*self => *a));
                        assert(decreases_to!(*a => a@));
                        assert(decreases_to!(a@ => a@[i as int]));
                    }
                    if !a[i].structurally_equals(&b[i]) {
                        assert(!equiv(view_items(a@)[i as int], view_items(b@)[i as int]));
                        return false;
                    }
                    i += 1;
                }
                true
            },
            (Unpacked::Mapping(ma), Unpacked::Mapping(mb)) => {
                let a = &ma.entries;
                let b = &mb.entries;
                proof {
                    use_type_invariant(ma);
                    use_type_invariant(mb);
                    lemma_view_entries(a@);
                    lemma_view_entries(b@);
                    lemma_map_of_distinct(view_entries(a@));
                    lemma_map_of_distinct(view_entries(b@));
                }
                if a.len() != b.len() {
                    return false;
                }
                let ghost av = view_entries(a@);
                let ghost bv = view_entries(b@);
                let mut i: usize = 0;
                while i < a.len()
                    invariant
                        a.len() == b.len(),
                        i <= a.len(),
                        *self == Unpacked::Mapping(*ma),
                        *a == ma.entries,
                        self@ == Value::Mapping(av),
                        other@ == Value::Mapping(bv),
                        av == view_entries(a@),
                        bv == view_entries(b@),
                        av.len() == a.len(),
                        bv.len() == b.len(),
                        forall|k: int| 0 <= k < a.len() ==> #[trigger] av[k] == (a@[k].0@, a@[k].1@),
                        forall|k: int| 0 <= k < b.len() ==> #[trigger] bv[k] == (b@[k].0@, b@[k].1@),
                        forall|j: int| 0 <= j < i ==> entry_found(bv, #[trigger] av[j]),
                    decreases a.len() - i,
                {
                    proof {
                        assert(decreases_to!(*self => (*self)->Mapping_0));
                        assert(decreases_to!(*ma => ma.entries));
                        assert(decreases_to!(*a => a@));
                        assert(decreases_to!(a@ => a@[i as int]));
                        assert(decreases_to!(a@[i as int] => a@[i as int].0));
                        lemma_key_index(bv, a@[i as int].0@);
                    }
                    let found = find_key(b, &a[i].0);
                    match found {
                        Some(j) => {
                            if !a[i].1.structurally_equals(&b[j].1) {
                                assert(!entry_found(bv, av[i as int]));
                                return false;
                            }
                            assert(entry_found(bv, av[i as int]));
                        },
                        None => {
                            assert(!entry_found(bv, av[i as int]));
                            return false;
                        },
                    }
                    i += 1;
                }
                true
            },
            _ => false,
        }
    }

    /// A copy of this value.
    pub fn duplicate(&self) -> (r: Unpacked)
        ensures
            r@ == self@,
        decreases self,
    {
        match self {
            Unpacked::Uint8(x) => Unpacked::Uint8(*x),
            Unpacked::Uint16(x) => Unpacked::Uint16(*x),
            Unpacked::Uint32(x) => Unpacked::Uint32(*x),
            Unpacked::Uint64(x) => Unpacked::Uint64(*x),
            Unpacked::Int8(x) => Unpacked::Int8(*x),
            Unpacked::Int16(x) => Unpacked::Int16(*x),
            Unpacked::Int32(x) => Unpacked::Int32(*x),
            Unpacked::Int64(x) => Unpacked::Int64(*x),
            Unpacked::Float(x) => Unpacked::Float(*x),
            Unpacked::Double(x) => Unpacked::Double(*x),
            Unpacked::Bool(b) => Unpacked::Bool(*b),
            Unpacked::Raw(b) => {
                let mut c: Vec<u8> = Vec::new();
                push_bytes(&mut c, b.as_slice());
                assert(c@ =~= b@);
                Unpacked::Raw(c)
            },
            Unpacked::String(t) => Unpacked::String(t.clone()),
            Unpacked::Null => Unpacked::Null,
            Unpacked::Undefined => Unpacked::Undefined,
            Unpacked::Array(a) => {
                let mut c: Vec<Unpacked> = Vec::new();
                let mut i: usize = 0;
                while i < a.len()
                    invariant
                        i <= a.len(),
                        *self == Unpacked::Array(*a),
                        c@.len() == i,
                        forall|k: int| 0 <= k < i ==> (#[trigger] c@[k])@ == a@[k]@,
                    decreases a.len() - i,
                {
                    proof {
                        assert(decreases_to!(*self => (*self)->Array_0));
                        assert(decreases_to!(*a => a@));
                        assert(decreases_to!(a@ => a@[i as int]));
                    }
                    c.push(a[i].duplicate());
                    i += 1;
                }
                proof {
                    lemma_view_items(a@);
                    lemma_view_items(c@);
                    assert(view_items(c@) =~= view_items(a@));
                }
                Unpacked::Array(c)
            },
            Unpacked::Mapping(mm) => {
                let m = &mm.entries;
                proof {
                    use_type_invariant(mm);
                }
                let mut c: Vec<(Unpacked, Unpacked)> = Vec::new();
                let mut i: usize = 0;
                while i < m.len()
                    invariant
                        i <= m.len(),
                        *self == Unpacked::Mapping(*mm),
                        *m == mm.entries,
                        c@.len() == i,
                        forall|k: int|
                            0 <= k < i ==> (#[trigger] c@[k]).0@ == m@[k].0@ && c@[k].1@
                                == m@[k].1@,
                    decreases m.len() - i,
                {
                    proof {
                        assert(decreases_to!(*self => (*self)->Mapping_0));
                        assert(decreases_to!(*mm => mm.entries));
                        assert(decreases_to!(*m => m@));
                        assert(decreases_to!(m@ => m@[i as int]));
                        assert(decreases_to!(m@[i as int] => m@[i as int].0));
                        assert(decreases_to!(m@[i as int] => m@[i as int].1));
                    }
                    let k = m[i].0.duplicate();
                    let v = m[i].1.duplicate();
                    c.push((k, v));
                    i += 1;
                }
                proof {
                    lemma_view_entries(m@);
                    lemma_view_entries(c@);
                    assert(view_entries(c@) =~= view_entries(m@));
                }
                Unpacked::Mapping(UnpackedMap { entries: c })
            },
        }
    }

    /// The canonical encoding of this value.
    pub fn pack(&self) -> (r: Vec<u8>)
        requires
            encodable(self@),
        ensures
            r@ == encoding(self@),
            well_formed(self@),
    {
        proof {
            lemma_view_keys_unique(*self);
            lemma_well_formed_parts(self@);
        }
        let mut packed: Vec<u8> = Vec::new();
        self.pack_into(&mut packed);
        assert(packed@ =~= encoding(self@));
        packed
    }

    /// Appends the canonical encoding of this value to `packed`.
    pub fn pack_into(&self, packed: &mut Vec<u8>)
        requires
            encodable(self@),
        ensures
            final(packed)@ == old(packed)@ + encoding(self@),
        decreases self,
    {
        let ghost start = packed@;
        match self {
            Unpacked::Uint8(a) => {
                if *a < MAP_MASK {
                    packed.push(*a);
                } else {
                    packed.push(PACKED_UINT8);
                    packed.push(*a);
                }
            },
            Unpacked::Uint16(a) => {
                packed.push(PACKED_UINT16);
                push_be(packed, *a as u64, 2);
            },
            Unpacked::Uint32(a) => {
                packed.push(PACKED_UINT32);
                push_be(packed, *a as u64, 4);
            },
            Unpacked::Uint64(a) => {
                packed.push(PACKED_UINT64);
                push_be(packed, *a, 8);
            },
            Unpacked::Int8(a) => {
                if -32 <= *a && *a < 0 {
                    packed.push(((*a + 32) as u8) ^ INT_MASK);
                } else {
                    packed.push(PACKED_INT8);
                    packed.push(#[verifier::truncate] (*a as u8));
                }
            },
            Unpacked::Int16(a) => {
                packed.push(PACKED_INT16);
                push_be(packed, (#[verifier::truncate] (*a as u16)) as u64, 2);
            },
            Unpacked::Int32(a) => {
                packed.push(PACKED_INT32);
                push_be(packed, (#[verifier::truncate] (*a as u32)) as u64, 4);
            },
            Unpacked::Int64(a) => {
                packed.push(PACKED_INT64);
                push_be(packed, #[verifier::truncate] (*a as u64), 8);
            },
            Unpacked::Float(bits) => {
                packed.push(PACKED_FLOAT);
                push_be(packed, *bits as u64, 4);
            },
            Unpacked::Double(bits) => {
                packed.push(PACKED_DOUBLE);
                push_be(packed, *bits, 8);
            },
            Unpacked::Bool(b) => {
                if *b {
                    packed.push(PACKED_TRUE);
                } else {
                    packed.push(PACKED_FALSE);
                }
            },
            Unpacked::Null => {
                packed.push(PACKED_NULL);
            },
            Unpacked::Undefined => {
                packed.push(PACKED_NULL);
            },
            Unpacked::Raw(b) => {
                push_length(packed, RAW_MASK, PACKED_RAW_U16, PACKED_RAW_U32, b.len());
                push_bytes(packed, b.as_slice());
            },
            Unpacked::String(t) => {
                let bytes = t.as_str().as_bytes();
                push_length(packed, STR_MASK, PACKED_STR_U16, PACKED_STR_U32, bytes.len());
                push_bytes(packed, bytes);
            },
            Unpacked::Array(a) => {
                let ghost x = view_items(a@);
                proof {
                    lemma_view_items(a@);
                }
                push_length(packed, ARR_MASK, PACKED_ARR_U16, PACKED_ARR_U32, a.len());
                let ghost mid = packed@;
                let mut i: usize = 0;
                proof {
                    assert(x.skip(0) =~= x);
                }
                while i < a.len()
                    invariant
                        i <= a.len(),
                        *self == Unpacked::Array(*a),
                        x == view_items(a@),
                        x.len() == a.len(),
                        forall|k: int| 0 <= k < a.len() ==> #[trigger] x[k] == a@[k]@,
                        forall|k: int| 0 <= k < a.len() ==> encodable(#[trigger] x[k]),
                        packed@ + encode_items(x.skip(i as int)) == mid + encode_items(x),
                    decreases a.len() - i,
                {
                    proof {
                        assert(decreases_to!(*self => (*self)->Array_0));
                        assert(decreases_to!(*a => a@));
                        assert(decreases_to!(a@ => a@[i as int]));
                        let t = x.skip(i as int);
                        assert(t.subrange(1, t.len() as int) =~= x.skip(i + 1));
                        assert(encode_items(t) == encoding(x[i as int]) + encode_items(x.skip(i + 1)));
                    }
                    let ghost before = packed@;
                    a[i].pack_into(packed);
                    proof {
                        assert(before + (encoding(x[i as int]) + encode_items(x.skip(i + 1)))
                            =~= packed@ + encode_items(x.skip(i + 1)));
                    }
                    i += 1;
                }
                proof {
                    assert(encode_items(x.skip(i as int)) =~= Seq::<u8>::empty());
                    assert(packed@ + Seq::<u8>::empty() =~= packed@);
                }
            },
            Unpacked::Mapping(mm) => {
                let m = &mm.entries;
                let ghost x = view_entries(m@);
                proof {
                    use_type_invariant(mm);
                    lemma_view_entries(m@);
                    lemma_map_of_distinct(x);
                }
                push_length(packed, MAP_MASK, PACKED_MAP_U16, PACKED_MAP_U32, m.len());
                let ghost mid = packed@;
                let mut i: usize = 0;
                proof {
                    assert(x.skip(0) =~= x);
                }
                while i < m.len()
                    invariant
                        i <= m.len(),
                        *self == Unpacked::Mapping(*mm),
                        *m == mm.entries,
                        x == view_entries(m@),
                        x.len() == m.len(),
                        forall|k: int| 0 <= k < m.len() ==> #[trigger] x[k] == (m@[k].0@, m@[k].1@),
                        forall|k: int|
                            0 <= k < m.len() ==> encodable(#[trigger] x[k].0) && encodable(x[k].1),
                        packed@ + encode_entries(x.skip(i as int)) == mid + encode_entries(x),
                    decreases m.len() - i,
                {
                    proof {
                        assert(decreases_to!(*self => (*self)->Mapping_0));
                        assert(decreases_to!(*mm => mm.entries));
                        assert(decreases_to!(*m => m@));
                        assert(decreases_to!(m@ => m@[i as int]));
                        assert(decreases_to!(m@[i as int] => m@[i as int].0));
                        assert(decreases_to!(m@[i as int] => m@[i as int].1));
                        let t = x.skip(i as int);
                        assert(t.subrange(1, t.len() as int) =~= x.skip(i + 1));
                        assert(encode_entries(t) == encoding(x[i as int].0) + encoding(x[i as int].1)
                            + encode_entries(x.skip(i + 1)));
                    }
                    let ghost before = packed@;
                    m[i].0.pack_into(packed);
                    m[i].1.pack_into(packed);
                    proof {
                        assert(before + (encoding(x[i as int].0) + encoding(x[i as int].1)
                            + encode_entries(x.skip(i + 1))) =~= packed@ + encode_entries(
                            x.skip(i + 1),
                        ));
                    }
                    i += 1;
                }
                proof {
                    assert(encode_entries(x.skip(i as int)) =~= Seq::<u8>::empty());
                    assert(packed@ + Seq::<u8>::empty() =~= packed@);
                }
            },
        }
        proof {
            assert(packed@ =~= start + encoding(self@));
        }
    }
}

/// Index of the first entry of `m` whose key is structurally equal to `k`.
fn find_key(m: &Vec<(Unpacked, Unpacked)>, k: &Unpacked) -> (r: Option<usize>)
    ensures
        match r {
            Some(j) => j == key_index(view_entries(m@), k@),
            None => key_index(view_entries(m@), k@) == -1,
        },
    decreases k, 1nat, 0nat,
{
    let ghost mv = view_entries(m@);
    proof {
        lemma_view_entries(m@);
        lemma_key_index(mv, k@);
    }
    let mut j: usize = 0;
    while j < m.len()
        invariant
            j <= m.len(),
            mv == view_entries(m@),
            mv.len() == m.len(),
            forall|t: int| 0 <= t < m.len() ==> #[trigger] mv[t] == (m@[t].0@, m@[t].1@),
            forall|t: int| 0 <= t < j ==> !equiv(k@, #[trigger] mv[t].0),
            -1 <= key_index(mv, k@) < mv.len(),
            key_index(mv, k@) >= 0 ==> equiv(k@, mv[key_index(mv, k@)].0),
            forall|t: int|
                0 <= t < mv.len() && (key_index(mv, k@) < 0 || t < key_index(mv, k@)) ==> !equiv(
                    k@,
                    #[trigger] mv[t].0,
                ),
        decreases m.len() - j,
    {
        if k.structurally_equals(&m[j].0) {
            assert(equiv(k@, mv[j as int].0));
            return Some(j);
        }
        j += 1;
    }
    None
}

/// `p` put in front of the items of a decoding result.
spec fn prepend_items(p: Seq<Value>, r: Result<(Seq<Value>, Seq<u8>), Error>) -> Result<
    (Seq<Value>, Seq<u8>),
    Error,
> {
    match r {
        Ok((vs, rest)) => Ok((p + vs, rest)),
        Err(e) => Err(e),
    }
}

/// `p` put in front of the pairs of a decoding result.
spec fn prepend_pairs(
    p: Seq<(Value, Value)>,
    r: Result<(Seq<(Value, Value)>, Seq<u8>), Error>,
) -> Result<(Seq<(Value, Value)>, Seq<u8>), Error> {
    match r {
        Ok((ps, rest)) => Ok((p + ps, rest)),
        Err(e) => Err(e),
    }
}

/// The tests of a fixed-size tag by its mask pick the range of that form.
proof fn lemma_fixed_tag(tag: u8, mask: u8)
    by (bit_vector)
    requires
        mask == 0x80 || mask == 0x90 || mask == 0xa0 || mask == 0xb0,
    ensures
        ((tag ^ mask) <= 0x0f) == (mask <= tag && tag <= mask + 0x0f),
        (tag ^ mask) <= 0x0f ==> (tag ^ mask) == tag - mask,
{
}

/// The test of a negative fixed integer picks the tags from 0xe0 up.
proof fn lemma_negative_tag(tag: u8)
    by (bit_vector)
    ensures
        ((tag ^ 0xe0) < 0x20) == (tag >= 0xe0),
        tag >= 0xe0 ==> (tag ^ 0xe0) == tag - 0xe0,
{
}


/// Appends the `width` low-order bytes of `x`, most significant first.
fn push_be(out: &mut Vec<u8>, x: u64, width: usize)
    ensures
        final(out)@ == old(out)@ + be_bytes(x as nat, width as nat),
    decreases width,
{
    if width > 0 {
        push_be(out, x / 256, width - 1);
        out.push((x % 256) as u8);
        proof {
            let b = be_bytes((x / 256) as nat, (width - 1) as nat);
            assert(be_bytes(x as nat, width as nat) == b.push((x % 256) as u8));
            assert(old(out)@ + b.push((x % 256) as u8) =~= (old(out)@ + b).push((x % 256) as u8));
        }
    }
}

/// Appends the tag and length prefix of a container of `n` items.
fn push_length(out: &mut Vec<u8>, fixed: u8, tag16: u8, tag32: u8, n: usize)
    requires
        fixed <= 0xf0,
        n <= 0xffff_ffff,
    ensures
        final(out)@ == old(out)@ + length_header(fixed, tag16, tag32, n as nat),
{
    if n <= 15 {
        out.push(fixed + n as u8);
    } else if n <= 0xffff {
        out.push(tag16);
        push_be(out, n as u64, 2);
    } else {
        out.push(tag32);
        push_be(out, n as u64, 4);
    }
    proof {
        let h = length_header(fixed, tag16, tag32, n as nat);
        if n > 15 {
            assert(old(out)@ + h =~= old(out)@ + seq![h[0]] + h.skip(1));
        }
    }
}

/// Appends the bytes of `b`.
fn push_bytes(out: &mut Vec<u8>, b: &[u8])
    ensures
        final(out)@ == old(out)@ + b@,
{
    let ghost start = out@;
    let mut i: usize = 0;
    while i < b.len()
        invariant
            i <= b.len(),
            out@ == start + b@.take(i as int),
        decreases b.len() - i,
    {
        out.push(b[i]);
        i += 1;
        assert(out@ =~= start + b@.take(i as int));
    }
    assert(b@.take(b.len() as int) =~= b@);
}

impl UnpackedMap {
    /// An empty map.
    pub fn new() -> (r: UnpackedMap)
        ensures
            r.pairs() == Seq::<(Value, Value)>::empty(),
    {
        let r = UnpackedMap { entries: Vec::new() };
        proof {
            lemma_view_entries(r.entries@);
            assert(view_entries(r.entries@) =~= Seq::<(Value, Value)>::empty());
        }
        r
    }

    /// The number of entries.
    pub fn len(&self) -> (r: usize)
        ensures
            r == self.pairs().len(),
    {
        proof {
            use_type_invariant(self);
            lemma_view_entries(self.entries@);
            lemma_map_of_distinct(view_entries(self.entries@));
        }
        self.entries.len()
    }

    /// The entry at position `i`.
    pub fn entry(&self, i: usize) -> (r: &(Unpacked, Unpacked))
        requires
            i < self.pairs().len(),
        ensures
            (r.0@, r.1@) == self.pairs()[i as int],
    {
        proof {
            use_type_invariant(self);
            lemma_view_entries(self.entries@);
            lemma_map_of_distinct(view_entries(self.entries@));
        }
        &self.entries[i]
    }

    /// Inserts `k` with value `v`: an entry with a structurally equal key keeps
    /// its key and takes `v`; otherwise the pair is appended.
    pub fn insert(&mut self, k: Unpacked, v: Unpacked)
        ensures
            final(self).pairs() == map_insert(old(self).pairs(), k@, v@),
    {
        let mut current = UnpackedMap::new();
        std::mem::swap(self, &mut current);
        proof {
            use_type_invariant(&current);
        }
        let mut entries = current.entries;
        let ghost mv = view_entries(entries@);
        proof {
            lemma_view_entries(entries@);
            lemma_key_index(mv, k@);
            lemma_map_of_distinct(mv);
            lemma_map_insert_distinct(mv, k@, v@);
            lemma_map_of_distinct(map_insert(mv, k@, v@));
        }
        match find_key(&entries, &k) {
            Some(j) => {
                let entry = entries.remove(j);
                entries.insert(j, (entry.0, v));
                proof {
                    lemma_view_entries(entries@);
                    assert(view_entries(entries@) =~= mv.update(j as int, (mv[j as int].0, v@)));
                }
            },
            None => {
                entries.push((k, v));
                proof {
                    lemma_view_entries(entries@);
                    assert(view_entries(entries@) =~= mv.push((k@, v@)));
                }
            },
        }
        *self = UnpackedMap { entries };
    }
}

impl Clone for Unpacked {
    fn clone(&self) -> (r: Unpacked) {
        self.duplicate()
    }
}

impl Eq for Unpacked {

}

impl PartialEq for Unpacked {
    fn eq(&self, other: &Unpacked) -> (r: bool) {
        self.structurally_equals(other)
    }
}

impl vstd::std_specs::cmp::PartialEqSpecImpl for Unpacked {
    open spec fn obeys_eq_spec() -> bool {
        true
    }

    open spec fn eq_spec(&self, other: &Unpacked) -> bool {
        equiv(self@, other@)
    }
}

/// `String::from_utf8` succeeds exactly on valid UTF-8, and the string then
/// holds the characters that the bytes encode.
pub assume_specification[ std::string::String::from_utf8 ](vec: std::vec::Vec<u8>) -> (r: Result<
    std::string::String,
    FromUtf8Error,
>)
    ensures
        r is Ok <==> valid_utf8(vec@),
        r matches Ok(s) ==> s@ == decode_utf8(vec@),
;

/// A read cursor over a byte buffer.
pub struct Unpacker<'a> {
    data: &'a [u8],
    pos: usize,
}

impl<'a> Unpacker<'a> {
    #[verifier::type_invariant]
    spec fn inv(&self) -> bool {
        self.pos <= self.data@.len()
    }

    /// The bytes not read yet.
    pub closed spec fn rest(&self) -> Seq<u8> {
        self.data@.subrange(self.pos as int, self.data@.len() as int)
    }

    /// A cursor at the start of `data`.
    pub fn new(data: &'a [u8]) -> (r: Unpacker<'a>)
        ensures
            r.rest() == data@,
    {
        let r = Unpacker { data, pos: 0 };
        assert(r.rest() =~= data@);
        r
    }

    /// Reads an unsigned integer of `width` bytes, most significant first.
    fn unpack_unsigned(&mut self, width: usize) -> (r: Result<u64, Error>)
        requires
            width <= 8,
        ensures
            match read_uint(old(self).rest(), width as nat) {
                Ok((n, rest)) => r matches Ok(x) && x as nat == n && final(self).rest() == rest,
                Err(e) => r == Err::<u64, Error>(e) && final(self).rest() == old(self).rest(),
            },
    {
        proof {
            use_type_invariant(&*self);
        }
        let ghost s = self.rest();
        if self.data.len() - self.pos < width {
            return Err(Error::EndOfData);
        }
        let mut val: u64 = 0;
        let mut i: usize = 0;
        proof {
            lemma_pow256_widths();
            assert(s.take(0).len() == 0);
        }
        while i < width
            invariant
                i <= width <= 8,
                self.pos + width <= self.data.len(),
                s == self.data@.subrange(self.pos as int, self.data@.len() as int),
                val as nat == be_value(s.take(i as int)),
                forall|n: nat| n < 8 ==> #[trigger] pow256(n) <= 0x100_0000_0000_0000,
            decreases width - i,
        {
            proof {
                lemma_be_value_step(s, i as int);
                lemma_be_value_bound(s.take(i as int));
                assert(s.take(i as int).len() == i);
                assert(val < 0x100_0000_0000_0000);
            }
            val = val * 256 + self.data[self.pos + i] as u64;
            i += 1;
        }
        self.pos = self.pos + width;
        assert(self.rest() =~= s.skip(width as int));
        Ok(val)
    }

    /// Reads an unsigned 8-bit integer.
    pub fn unpack_uint8(&mut self) -> (r: Result<u8, Error>)
        ensures
            match read_uint(old(self).rest(), 1) {
                Ok((n, rest)) => r == Ok::<u8, Error>(n as u8) && final(self).rest() == rest,
                Err(e) => r == Err::<u8, Error>(e) && final(self).rest() == old(self).rest(),
            },
    {
        match self.unpack_unsigned(1) {
            Ok(x) => Ok(x as u8),
            Err(e) => Err(e),
        }
    }

    /// Reads a signed 8-bit integer in two's complement.
    pub fn unpack_int8(&mut self) -> (r: Result<i8, Error>)
        ensures
            match read_uint(old(self).rest(), 1) {
                Ok((n, rest)) => r == Ok::<i8, Error>(n as i8) && final(self).rest() == rest,
                Err(e) => r == Err::<i8, Error>(e) && final(self).rest() == old(self).rest(),
            },
    {
        match self.unpack_unsigned(1) {
            Ok(x) => Ok(x as i8),
            Err(e) => Err(e),
        }
    }

    /// Reads a big-endian unsigned 16-bit integer.
    pub fn unpack_uint16(&mut self) -> (r: Result<u16, Error>)
        ensures
            match read_uint(old(self).rest(), 2) {
                Ok((n, rest)) => r == Ok::<u16, Error>(n as u16) && final(self).rest() == rest,
                Err(e) => r == Err::<u16, Error>(e) && final(self).rest() == old(self).rest(),
            },
    {
        match self.unpack_unsigned(2) {
            Ok(x) => Ok(x as u16),
            Err(e) => Err(e),
        }
    }

    /// Reads a big-endian signed 16-bit integer in two's complement.
    pub fn unpack_int16(&mut self) -> (r: Result<i16, Error>)
        ensures
            match read_uint(old(self).rest(), 2) {
                Ok((n, rest)) => r == Ok::<i16, Error>(n as i16) && final(self).rest() == rest,
                Err(e) => r == Err::<i16, Error>(e) && final(self).rest() == old(self).rest(),
            },
    {
        match self.unpack_unsigned(2) {
            Ok(x) => Ok(x as i16),
            Err(e) => Err(e),
        }
    }

    /// Reads a big-endian unsigned 32-bit integer.
    pub fn unpack_uint32(&mut self) -> (r: Result<u32, Error>)
        ensures
            match read_uint(old(self).rest(), 4) {
                Ok((n, rest)) => r == Ok::<u32, Error>(n as u32) && final(self).rest() == rest,
                Err(e) => r == Err::<u32, Error>(e) && final(self).rest() == old(self).rest(),
            },
    {
        match self.unpack_unsigned(4) {
            Ok(x) => Ok(x as u32),
            Err(e) => Err(e),
        }
    }

    /// Reads a big-endian signed 32-bit integer in two's complement.
    pub fn unpack_int32(&mut self) -> (r: Result<i32, Error>)
        ensures
            match read_uint(old(self).rest(), 4) {
                Ok((n, rest)) => r == Ok::<i32, Error>(n as i32) && final(self).rest() == rest,
                Err(e) => r == Err::<i32, Error>(e) && final(self).rest() == old(self).rest(),
            },
    {
        match self.unpack_unsigned(4) {
            Ok(x) => Ok(x as i32),
            Err(e) => Err(e),
        }
    }

    /// Reads a big-endian unsigned 64-bit integer.
    pub fn unpack_uint64(&mut self) -> (r: Result<u64, Error>)
        ensures
            match read_uint(old(self).rest(), 8) {
                Ok((n, rest)) => r == Ok::<u64, Error>(n as u64) && final(self).rest() == rest,
                Err(e) => r == Err::<u64, Error>(e) && final(self).rest() == old(self).rest(),
            },
    {
        match self.unpack_unsigned(8) {
            Ok(x) => Ok(x as u64),
            Err(e) => Err(e),
        }
    }

    /// Reads a big-endian signed 64-bit integer in two's complement.
    pub fn unpack_int64(&mut self) -> (r: Result<i64, Error>)
        ensures
            match read_uint(old(self).rest(), 8) {
                Ok((n, rest)) => r == Ok::<i64, Error>(n as i64) && final(self).rest() == rest,
                Err(e) => r == Err::<i64, Error>(e) && final(self).rest() == old(self).rest(),
            },
    {
        match self.unpack_unsigned(8) {
            Ok(x) => Ok(x as i64),
            Err(e) => Err(e),
        }
    }

    /// Reads a length prefix of `width` bytes.
    fn unpack_length(&mut self, width: usize) -> (r: Result<usize, Error>)
        requires
            width == 2 || width == 4,
        ensures
            match read_uint(old(self).rest(), width as nat) {
                Ok((n, rest)) => r == Ok::<usize, Error>(n as usize) && n <= u32::MAX
                    && final(self).rest() == rest,
                Err(e) => r == Err::<usize, Error>(e) && final(self).rest() == old(self).rest(),
            },
    {
        proof {
            lemma_be_value_bound(old(self).rest().take(width as int));
            lemma_pow256_widths();
        }
        if width == 2 {
            match self.unpack_uint16() {
                Ok(n) => Ok(n as usize),
                Err(e) => Err(e),
            }
        } else {
            match self.unpack_uint32() {
                Ok(n) => Ok(n as usize),
                Err(e) => Err(e),
            }
        }
    }

    /// Reads `size` raw bytes.
    pub fn unpack_raw(&mut self, size: usize) -> (r: Result<Vec<u8>, Error>)
        ensures
            match read_bytes(old(self).rest(), size as nat) {
                Ok((b, rest)) => r matches Ok(v) && v@ == b && final(self).rest() == rest,
                Err(e) => r == Err::<Vec<u8>, Error>(e) && final(self).rest() == old(self).rest(),
            },
    {
        proof {
            use_type_invariant(&*self);
        }
        let ghost s = self.rest();
        let mut raw: Vec<u8> = Vec::new();
        if self.data.len() - self.pos < size {
            return Err(Error::EndOfData);
        }
        let mut i: usize = 0;
        while i < size
            invariant
                i <= size,
                self.pos + size <= self.data.len(),
                s == self.data@.subrange(self.pos as int, self.data@.len() as int),
                raw@ == s.take(i as int),
            decreases size - i,
        {
            raw.push(self.data[self.pos + i]);
            i += 1;
            assert(raw@ =~= s.take(i as int));
        }
        self.pos = self.pos + size;
        assert(self.rest() =~= s.skip(size as int));
        Ok(raw)
    }

    /// Reads `size` bytes of UTF-8 text. Invalid text is consumed and
    /// reported as `StringParseError`.
    pub fn unpack_string(&mut self, size: usize) -> (r: Result<String, Error>)
        ensures
            match read_bytes(old(self).rest(), size as nat) {
                Ok((b, rest)) => final(self).rest() == rest && if valid_utf8(b) {
                    r matches Ok(t) && t@ == decode_utf8(b)
                } else {
                    r == Err::<String, Error>(Error::StringParseError)
                },
                Err(e) => r == Err::<String, Error>(e) && final(self).rest() == old(self).rest(),
            },
    {
        match self.unpack_raw(size) {
            Ok(raw) => match String::from_utf8(raw) {
                Ok(t) => Ok(t),
                Err(e) => Err(Error::from(e)),
            },
            Err(e) => Err(e),
        }
    }

    /// Reads the bit pattern of an IEEE-754 binary32 number, big-endian.
    pub fn unpack_float(&mut self) -> (r: Result<u32, Error>)
        ensures
            match read_uint(old(self).rest(), 4) {
                Ok((n, rest)) => r == Ok::<u32, Error>(n as u32) && final(self).rest() == rest,
                Err(e) => r == Err::<u32, Error>(e) && final(self).rest() == old(self).rest(),
            },
    {
        self.unpack_uint32()
    }

    /// Reads the bit pattern of an IEEE-754 binary64 number, big-endian.
    pub fn unpack_double(&mut self) -> (r: Result<u64, Error>)
        ensures
            match read_uint(old(self).rest(), 8) {
                Ok((n, rest)) => r == Ok::<u64, Error>(n as u64) && final(self).rest() == rest,
                Err(e) => r == Err::<u64, Error>(e) && final(self).rest() == old(self).rest(),
            },
    {
        self.unpack_uint64()
    }


    /// Reads `size` values one after another.
    pub fn unpack_array(&mut self, size: usize) -> (r: Result<Vec<Unpacked>, Error>)
        ensures
            match parse_items(old(self).rest(), size as nat) {
                Ok((vs, rest)) => r matches Ok(a) && view_items(a@) == vs && final(self).rest()
                    == rest,
                Err(e) => r == Err::<Vec<Unpacked>, Error>(e),
            },
        decreases old(self).rest().len(), 1nat, size as nat,
    {
        let ghost s0 = self.rest();
        let mut arr: Vec<Unpacked> = Vec::new();
        let mut i: usize = 0;
        proof {
            lemma_view_items(arr@);
            assert(view_items(arr@) + Seq::<Value>::empty() =~= Seq::<Value>::empty());
        }
        while i < size
            invariant
                i <= size,
                s0 == old(self).rest(),
                self.rest().len() <= s0.len(),
                parse_items(s0, size as nat) == prepend_items(
                    view_items(arr@),
                    parse_items(self.rest(), (size - i) as nat),
                ),
            decreases size - i,
        {
            let ghost cur = self.rest();
            let ghost before = view_items(arr@);
            proof {
                lemma_parse_shrinks(cur);
                lemma_view_items(arr@);
            }
            assert(decreases_to!(s0.len(), 1nat, size as nat => cur.len(), 0nat, 0nat));
            match self.unpack() {
                Ok(u) => {
                    arr.push(u);
                    proof {
                        lemma_view_items(arr@);
                        assert(view_items(arr@) =~= before + seq![u@]);
                        if let Ok((vs, rest)) = parse_items(self.rest(), (size - i - 1) as nat) {
                            assert(before + (seq![u@] + vs) =~= (before + seq![u@]) + vs);
                        }
                    }
                },
                Err(e) => {
                    assert(parse(cur) == Err::<(Value, Seq<u8>), Error>(e));
                    assert(parse_items(cur, (size - i) as nat) == Err::<(Seq<Value>, Seq<u8>), Error>(e));
                    return Err(e);
                },
            }
            i += 1;
        }
        proof {
            assert(view_items(arr@) + Seq::<Value>::empty() =~= view_items(arr@));
        }
        Ok(arr)
    }


    /// Reads `size` key/value pairs and inserts them in order into a map.
    pub fn unpack_map(&mut self, size: usize) -> (r: Result<UnpackedMap, Error>)
        ensures
            match parse_pairs(old(self).rest(), size as nat) {
                Ok((ps, rest)) => r matches Ok(m) && m.pairs() == map_of(ps)
                    && final(self).rest() == rest,
                Err(e) => r == Err::<UnpackedMap, Error>(e),
            },
        decreases old(self).rest().len(), 1nat, size as nat,
    {
        let ghost s0 = self.rest();
        let mut map = UnpackedMap::new();
        let ghost mut ps: Seq<(Value, Value)> = Seq::empty();
        let mut i: usize = 0;
        proof {
            assert(ps + Seq::<(Value, Value)>::empty() =~= Seq::<(Value, Value)>::empty());
        }
        while i < size
            invariant
                i <= size,
                s0 == old(self).rest(),
                self.rest().len() <= s0.len(),
                parse_pairs(s0, size as nat) == prepend_pairs(
                    ps,
                    parse_pairs(self.rest(), (size - i) as nat),
                ),
                map.pairs() == map_of(ps),
            decreases size - i,
        {
            let ghost cur = self.rest();
            proof {
                lemma_parse_shrinks(cur);
            }
            assert(decreases_to!(s0.len(), 1nat, size as nat => cur.len(), 0nat, 0nat));
            let k = match self.unpack() {
                Ok(k) => k,
                Err(e) => {
                    assert(parse(cur) == Err::<(Value, Seq<u8>), Error>(e));
                    assert(parse_pairs(cur, (size - i) as nat) == Err::<
                        (Seq<(Value, Value)>, Seq<u8>),
                        Error,
                    >(e));
                    return Err(e);
                },
            };
            let ghost mid = self.rest();
            proof {
                lemma_parse_shrinks(mid);
            }
            assert(decreases_to!(s0.len(), 1nat, size as nat => mid.len(), 0nat, 0nat));
            let v = match self.unpack() {
                Ok(v) => v,
                Err(e) => {
                    assert(parse(mid) == Err::<(Value, Seq<u8>), Error>(e));
                    assert(parse_pairs(cur, (size - i) as nat) == Err::<
                        (Seq<(Value, Value)>, Seq<u8>),
                        Error,
                    >(e));
                    return Err(e);
                },
            };
            map.insert(k, v);
            proof {
                let ps2 = ps.push((k@, v@));
                assert(ps2.subrange(0, ps2.len() - 1) =~= ps);
                if let Ok((qs, rest)) = parse_pairs(self.rest(), (size - i - 1) as nat) {
                    assert(ps + (seq![(k@, v@)] + qs) =~= ps2 + qs);
                }
                ps = ps2;
            }
            i += 1;
        }
        proof {
            assert(ps + Seq::<(Value, Value)>::empty() =~= ps);
        }
        Ok(map)
    }

    /// Reads one value: a tag byte, then what the tag calls for.
    #[verifier::rlimit(50)]
    pub fn unpack(&mut self) -> (r: Result<Unpacked, Error>)
        ensures
            match parse(old(self).rest()) {
                Ok((v, rest)) => r matches Ok(u) && u@ == v && final(self).rest() == rest,
                Err(e) => r == Err::<Unpacked, Error>(e),
            },
        decreases old(self).rest().len(), 0nat, 0nat,
    {
        let ghost s = self.rest();
        let type_ = match self.unpack_uint8() {
            Ok(t) => t,
            Err(e) => {
                return Err(e);
            },
        };
        proof {
            reveal_with_fuel(be_value, 2);
            assert(be_value(s.take(1)) == s[0]);
            lemma_negative_tag(type_);
            lemma_fixed_tag(type_, MAP_MASK);
            lemma_fixed_tag(type_, ARR_MASK);
            lemma_fixed_tag(type_, RAW_MASK);
            lemma_fixed_tag(type_, STR_MASK);
        }
        if type_ < MAP_MASK {
            return Ok(Unpacked::Uint8(type_));
        } else if (type_ ^ INT_MASK) < 0x20 {
            return Ok(Unpacked::Int8((type_ ^ INT_MASK) as i8 - 0x20));
        }
        let size = type_ ^ MAP_MASK;
        if size <= 0x0f {
            return match self.unpack_map(size as usize) {
                Ok(m) => Ok(Unpacked::Mapping(m)),
                Err(e) => Err(e),
            };
        }
        let size = type_ ^ ARR_MASK;
        if size <= 0x0f {
            return match self.unpack_array(size as usize) {
                Ok(a) => Ok(Unpacked::Array(a)),
                Err(e) => Err(e),
            };
        }
        let size = type_ ^ RAW_MASK;
        if size <= 0x0f {
            return match self.unpack_raw(size as usize) {
                Ok(b) => Ok(Unpacked::Raw(b)),
                Err(e) => Err(e),
            };
        }
        let size = type_ ^ STR_MASK;
        if size <= 0x0f {
            return match self.unpack_string(size as usize) {
                Ok(t) => Ok(Unpacked::String(t)),
                Err(e) => Err(e),
            };
        }
        self.unpack_table(type_)
    }

    /// Reads the value after a tag of the explicit table.
    #[verifier::rlimit(100)]
    fn unpack_table(&mut self, type_: u8) -> (r: Result<Unpacked, Error>)
        ensures
            match parse_table(type_, old(self).rest()) {
                Ok((v, rest)) => r matches Ok(u) && u@ == v && final(self).rest() == rest,
                Err(e) => r == Err::<Unpacked, Error>(e),
            },
        decreases old(self).rest().len(), 3nat, 0nat,
    {
        if type_ == PACKED_NULL {
            Ok(Unpacked::Null)
        } else if type_ == PACKED_FALSE {
            Ok(Unpacked::Bool(false))
        } else if type_ == PACKED_TRUE {
            Ok(Unpacked::Bool(true))
        } else if type_ == PACKED_FLOAT {
            match self.unpack_float() {
                Ok(f) => Ok(Unpacked::Float(f)),
                Err(e) => Err(e),
            }
        } else if type_ == PACKED_DOUBLE {
            match self.unpack_double() {
                Ok(f) => Ok(Unpacked::Double(f)),
                Err(e) => Err(e),
            }
        } else if type_ == PACKED_UINT8 {
            match self.unpack_uint8() {
                Ok(x) => Ok(Unpacked::Uint8(x)),
                Err(e) => Err(e),
            }
        } else if type_ == PACKED_UINT16 {
            match self.unpack_uint16() {
                Ok(x) => Ok(Unpacked::Uint16(x)),
                Err(e) => Err(e),
            }
        } else if type_ == PACKED_UINT32 {
            match self.unpack_uint32() {
                Ok(x) => Ok(Unpacked::Uint32(x)),
                Err(e) => Err(e),
            }
        } else if type_ == PACKED_UINT64 {
            match self.unpack_uint64() {
                Ok(x) => Ok(Unpacked::Uint64(x)),
                Err(e) => Err(e),
            }
        } else if type_ == PACKED_INT8 {
            match self.unpack_int8() {
                Ok(x) => Ok(Unpacked::Int8(x)),
                Err(e) => Err(e),
            }
        } else if type_ == PACKED_INT16 {
            match self.unpack_int16() {
                Ok(x) => Ok(Unpacked::Int16(x)),
                Err(e) => Err(e),
            }
        } else if type_ == PACKED_INT32 {
            match self.unpack_int32() {
                Ok(x) => Ok(Unpacked::Int32(x)),
                Err(e) => Err(e),
            }
        } else if type_ == PACKED_INT64 {
            match self.unpack_int64() {
                Ok(x) => Ok(Unpacked::Int64(x)),
                Err(e) => Err(e),
            }
        } else {
            self.unpack_prefixed(type_)
        }
    }


    /// Reads the value after a tag with a 16- or 32-bit length prefix; any
    /// other tag gives `Undefined`.
    fn unpack_prefixed(&mut self, type_: u8) -> (r: Result<Unpacked, Error>)
        ensures
            match parse_prefixed(type_, old(self).rest()) {
                Ok((v, rest)) => r matches Ok(u) && u@ == v && final(self).rest() == rest,
                Err(e) => r == Err::<Unpacked, Error>(e),
            },
        decreases old(self).rest().len(), 2nat, 1nat,
    {
        if type_ < PACKED_STR_U16 || type_ > PACKED_MAP_U32 {
            return Ok(Unpacked::Undefined);
        }
        let width: usize = if type_ == PACKED_STR_U16 || type_ == PACKED_RAW_U16 || type_
            == PACKED_ARR_U16 || type_ == PACKED_MAP_U16 {
            2
        } else {
            4
        };
        let size = match self.unpack_length(width) {
            Ok(n) => n,
            Err(e) => {
                return Err(e);
            },
        };
        if type_ == PACKED_STR_U16 || type_ == PACKED_STR_U32 {
            match self.unpack_string(size) {
                Ok(t) => Ok(Unpacked::String(t)),
                Err(e) => Err(e),
            }
        } else if type_ == PACKED_RAW_U16 || type_ == PACKED_RAW_U32 {
            match self.unpack_raw(size) {
                Ok(b) => Ok(Unpacked::Raw(b)),
                Err(e) => Err(e),
            }
        } else if type_ == PACKED_ARR_U16 || type_ == PACKED_ARR_U32 {
            match self.unpack_array(size) {
                Ok(a) => Ok(Unpacked::Array(a)),
                Err(e) => Err(e),
            }
        } else {
            match self.unpack_map(size) {
                Ok(m) => Ok(Unpacked::Mapping(m)),
                Err(e) => Err(e),
            }
        }
    }

}

/// Decodes the value at the start of `data`; bytes after it are ignored.
pub fn unpack(data: &[u8]) -> (r: Result<Unpacked, Error>)
    ensures
        match parse(data@) {
            Ok((v, rest)) => r matches Ok(u) && u@ == v,
            Err(e) => r == Err::<Unpacked, Error>(e),
        },
{
    Unpacker::new(data).unpack()
}

} // verus!

