//! The binary wire format: big-endian fixed-width numbers, length-prefixed
//! strings and arrays, typed lists, and compounds closed by an end byte.
use vstd::prelude::*;
use vstd::utf8::{
    decode_utf8, decode_utf8_encode_utf8, encode_utf8, encode_utf8_decode_utf8, encode_utf8_valid_utf8,
    valid_utf8,
};
use crate::compound::{
    NbtCompound, compound_bytes, compound_canonical, compound_chunks, compound_encodable, compound_eq,
    lemma_compound_canonical, lemma_compound_encodable, lemma_compound_eq_pairwise, lemma_entries_decrease,
};
use crate::tag::{
    list_eq, tag_eq, NbtList, Tag, BYTE_ARRAY_ID, BYTE_ID, COMPOUND_ID, DOUBLE_ID, END_ID, FLOAT_ID, INT_ARRAY_ID, INT_ID,
    LIST_ID, LONG_ARRAY_ID, LONG_ID, SHORT_ID, STRING_ID,
};

verus! {

/// The low `n` bytes of `v`, most significant first.
pub open spec fn be(v: nat, n: nat) -> Seq<u8>
    decreases n,
{
    if n == 0 {
        seq![]
    } else {
        be(v / 256, (n - 1) as nat).push((v % 256) as u8)
    }
}

/// The bytes of a sequence of items, each encoded by `f`, one after another.
pub open spec fn chunks<T>(s: Seq<T>, f: spec_fn(T) -> Seq<u8>) -> Seq<u8> {
    s.map_values(f).flatten()
}

pub open spec fn i8_bytes(x: i8) -> Seq<u8> {
    be(x as u8 as nat, 1)
}

pub open spec fn i16_bytes(x: i16) -> Seq<u8> {
    be(x as u16 as nat, 2)
}

pub open spec fn i32_bytes(x: i32) -> Seq<u8> {
    be(x as u32 as nat, 4)
}

pub open spec fn i64_bytes(x: i64) -> Seq<u8> {
    be(x as u64 as nat, 8)
}

pub open spec fn u32_bytes(x: u32) -> Seq<u8> {
    be(x as nat, 4)
}

pub open spec fn u64_bytes(x: u64) -> Seq<u8> {
    be(x as nat, 8)
}

/// A sequence of i8 values, each in its fixed-width form.
pub open spec fn i8s_bytes(a: Seq<i8>) -> Seq<u8> {
    chunks(a, |v: i8| i8_bytes(v))
}

/// A sequence of i16 values, each in its fixed-width form.
pub open spec fn i16s_bytes(a: Seq<i16>) -> Seq<u8> {
    chunks(a, |v: i16| i16_bytes(v))
}

/// A sequence of i32 values, each in its fixed-width form.
pub open spec fn i32s_bytes(a: Seq<i32>) -> Seq<u8> {
    chunks(a, |v: i32| i32_bytes(v))
}

/// A sequence of i64 values, each in its fixed-width form.
pub open spec fn i64s_bytes(a: Seq<i64>) -> Seq<u8> {
    chunks(a, |v: i64| i64_bytes(v))
}

/// A sequence of u32 values, each in its fixed-width form.
pub open spec fn u32s_bytes(a: Seq<u32>) -> Seq<u8> {
    chunks(a, |v: u32| u32_bytes(v))
}

/// A sequence of u64 values, each in its fixed-width form.
pub open spec fn u64s_bytes(a: Seq<u64>) -> Seq<u8> {
    chunks(a, |v: u64| u64_bytes(v))
}

/// A sequence of String values, each in its length-prefixed form.
pub open spec fn strings_bytes(a: Seq<String>) -> Seq<u8> {
    chunks(a, |v: String| str_bytes(v@))
}

/// A sequence of Vec<u8> values, each in its length-prefixed form.
pub open spec fn byte_arrays_bytes(a: Seq<Vec<u8>>) -> Seq<u8> {
    chunks(a, |v: Vec<u8>| byte_array_bytes(v@))
}

/// A sequence of Vec<i32> values, each in its length-prefixed form.
pub open spec fn int_arrays_bytes(a: Seq<Vec<i32>>) -> Seq<u8> {
    chunks(a, |v: Vec<i32>| int_array_bytes(v@))
}

/// A sequence of Vec<i64> values, each in its length-prefixed form.
pub open spec fn long_arrays_bytes(a: Seq<Vec<i64>>) -> Seq<u8> {
    chunks(a, |v: Vec<i64>| long_array_bytes(v@))
}

/// A byte array: its length as four bytes, then the bytes.
pub open spec fn byte_array_bytes(a: Seq<u8>) -> Seq<u8> {
    be(a.len(), 4) + a
}

/// An int array: its length as four bytes, then four bytes per int.
pub open spec fn int_array_bytes(a: Seq<i32>) -> Seq<u8> {
    be(a.len(), 4) + i32s_bytes(a)
}

/// A long array: its length as four bytes, then eight bytes per long.
pub open spec fn long_array_bytes(a: Seq<i64>) -> Seq<u8> {
    be(a.len(), 4) + i64s_bytes(a)
}

/// A string: the length of its UTF-8 form as two bytes, then that form.
pub open spec fn str_bytes(s: Seq<char>) -> Seq<u8> {
    be(encode_utf8(s).len(), 2) + encode_utf8(s)
}

/// Whether the UTF-8 form of a string fits a two-byte length.
pub open spec fn str_fits(s: Seq<char>) -> bool {
    encode_utf8(s).len() <= 0xffff
}

/// Whether a length fits the signed four-byte length field.
pub open spec fn len_fits(n: nat) -> bool {
    n <= 0x7fff_ffff
}

/// The payload of a value: what follows its type-ID (and key, in a compound).
pub open spec fn payload(t: Tag) -> Seq<u8>
    decreases t, 1nat,
{
    match t {
        Tag::End => seq![],
        Tag::Byte(x) => i8_bytes(x),
        Tag::Short(x) => i16_bytes(x),
        Tag::Int(x) => i32_bytes(x),
        Tag::Long(x) => i64_bytes(x),
        Tag::Float(x) => u32_bytes(x),
        Tag::Double(x) => u64_bytes(x),
        Tag::ByteArray(a) => byte_array_bytes(a@),
        Tag::String(s) => str_bytes(s@),
        Tag::List(l) => list_bytes(l),
        Tag::Compound(c) => compound_bytes(c),
        Tag::IntArray(a) => int_array_bytes(a@),
        Tag::LongArray(a) => long_array_bytes(a@),
    }
}

/// The number of elements of a list.
pub open spec fn list_len(l: NbtList) -> nat {
    match l {
        NbtList::Empty => 0,
        NbtList::Byte(x) => x@.len(),
        NbtList::Short(x) => x@.len(),
        NbtList::Int(x) => x@.len(),
        NbtList::Long(x) => x@.len(),
        NbtList::Float(x) => x@.len(),
        NbtList::Double(x) => x@.len(),
        NbtList::ByteArray(x) => x@.len(),
        NbtList::String(x) => x@.len(),
        NbtList::List(x) => x@.len(),
        NbtList::Compound(x) => x@.len(),
        NbtList::IntArray(x) => x@.len(),
        NbtList::LongArray(x) => x@.len(),
    }
}

/// The encoded elements of a list, one after another.
pub open spec fn list_items(l: NbtList) -> Seq<u8>
    decreases l, 0nat,
{
    match l {
        NbtList::Empty => seq![],
        NbtList::Byte(x) => i8s_bytes(x@),
        NbtList::Short(x) => i16s_bytes(x@),
        NbtList::Int(x) => i32s_bytes(x@),
        NbtList::Long(x) => i64s_bytes(x@),
        NbtList::Float(x) => u32s_bytes(x@),
        NbtList::Double(x) => u64s_bytes(x@),
        NbtList::ByteArray(x) => byte_arrays_bytes(x@),
        NbtList::String(x) => strings_bytes(x@),
        NbtList::List(x) => lists_chunks(x).flatten(),
        NbtList::Compound(x) => compounds_chunks(x).flatten(),
        NbtList::IntArray(x) => int_arrays_bytes(x@),
        NbtList::LongArray(x) => long_arrays_bytes(x@),
    }
}

/// The encoded lists of a list of lists, one per element.
pub open spec fn lists_chunks(x: Vec<NbtList>) -> Seq<Seq<u8>>
    decreases x, 0nat,
{
    Seq::new(
        x@.len(),
        |i: int|
            if 0 <= i < x@.len() {
                list_bytes(x[i])
            } else {
                seq![]
            },
    )
}

/// The encoded compounds of a list of compounds, one per element.
pub open spec fn compounds_chunks(x: Vec<NbtCompound>) -> Seq<Seq<u8>>
    decreases x, 0nat,
{
    Seq::new(
        x@.len(),
        |i: int|
            if 0 <= i < x@.len() {
                compound_bytes(x[i])
            } else {
                seq![]
            },
    )
}

/// A list: the element type-ID, the count as four bytes, then the elements
/// with no type-ID or key of their own.
pub open spec fn list_bytes(l: NbtList) -> Seq<u8>
    decreases l, 1nat,
{
    seq![l.spec_id()] + be(list_len(l), 4) + list_items(l)
}

/// Element `i` of a list, as a value of its own.
pub open spec fn list_element(l: NbtList, i: int) -> Tag {
    match l {
        NbtList::Empty => Tag::End,
        NbtList::Byte(x) => Tag::Byte(x[i]),
        NbtList::Short(x) => Tag::Short(x[i]),
        NbtList::Int(x) => Tag::Int(x[i]),
        NbtList::Long(x) => Tag::Long(x[i]),
        NbtList::Float(x) => Tag::Float(x[i]),
        NbtList::Double(x) => Tag::Double(x[i]),
        NbtList::ByteArray(x) => Tag::ByteArray(x[i]),
        NbtList::String(x) => Tag::String(x[i]),
        NbtList::List(x) => Tag::List(x[i]),
        NbtList::Compound(x) => Tag::Compound(x[i]),
        NbtList::IntArray(x) => Tag::IntArray(x[i]),
        NbtList::LongArray(x) => Tag::LongArray(x[i]),
    }
}

/// Every element of a list has the type-ID the list declares for its
/// elements.
pub proof fn law_list_homogeneous(l: NbtList, i: int)
    requires
        0 <= i < list_len(l),
    ensures
        list_element(l, i).spec_id() == l.spec_id(),
{
}

/// Whether a value comes back from its encoding: any list in it with no
/// elements is the empty list, no compound in it holds an end value, and
/// lists and compounds nest at most `d` deep.
pub open spec fn canonical(t: Tag, d: nat) -> bool
    decreases t,
{
    match t {
        Tag::List(l) => d > 0 && list_canonical(l, (d - 1) as nat),
        Tag::Compound(c) => d > 0 && compound_canonical(c, (d - 1) as nat),
        _ => true,
    }
}

/// `canonical` for a list, its elements within `d` further levels.
pub open spec fn list_canonical(l: NbtList, d: nat) -> bool
    decreases l,
{
    &&& (list_len(l) == 0 ==> l is Empty)
    &&& match l {
        NbtList::List(x) => forall|i: int|
            0 <= i < x.len() ==> d > 0 && list_canonical(#[trigger] x[i], (d - 1) as nat),
        NbtList::Compound(x) => forall|i: int|
            0 <= i < x.len() ==> d > 0 && compound_canonical(#[trigger] x[i], (d - 1) as nat),
        _ => true,
    }
}

/// Whether every length in a value fits its field on the wire.
pub open spec fn encodable(t: Tag) -> bool
    decreases t,
{
    match t {
        Tag::ByteArray(a) => len_fits(a@.len()),
        Tag::String(s) => str_fits(s@),
        Tag::List(l) => list_encodable(l),
        Tag::Compound(c) => compound_encodable(c),
        Tag::IntArray(a) => len_fits(a@.len()),
        Tag::LongArray(a) => len_fits(a@.len()),
        _ => true,
    }
}

/// Whether every length in a list fits its field on the wire.
pub open spec fn list_encodable(l: NbtList) -> bool
    decreases l,
{
    &&& len_fits(list_len(l))
    &&& match l {
        NbtList::ByteArray(x) => forall|i: int| 0 <= i < x.len() ==> len_fits(#[trigger] x[i]@.len()),
        NbtList::String(x) => forall|i: int| 0 <= i < x.len() ==> str_fits(#[trigger] x[i]@),
        NbtList::List(x) => forall|i: int| 0 <= i < x.len() ==> list_encodable(#[trigger] x[i]),
        NbtList::Compound(x) => forall|i: int| 0 <= i < x.len() ==> compound_encodable(#[trigger] x[i]),
        NbtList::IntArray(x) => forall|i: int| 0 <= i < x.len() ==> len_fits(#[trigger] x[i]@.len()),
        NbtList::LongArray(x) => forall|i: int| 0 <= i < x.len() ==> len_fits(#[trigger] x[i]@.len()),
        _ => true,
    }
}

proof fn lemma_flatten_take(ss: Seq<Seq<u8>>, i: int)
    requires
        0 <= i < ss.len(),
    ensures
        ss.take(i + 1).flatten() == ss.take(i).flatten() + ss[i],
{
    assert(ss.take(i + 1) =~= ss.take(i).push(ss[i]));
    ss.take(i).lemma_flatten_push(ss[i]);
}

/// Append the low `n` bytes of `v`, most significant first.
pub(crate) fn put_be(out: &mut Vec<u8>, v: u64, n: usize)
    requires
        n <= 8,
    ensures
        final(out)@ == old(out)@ + be(v as nat, n as nat),
    decreases n,
{
    if n == 0 {
        assert(old(out)@ + be(v as nat, 0) =~= old(out)@);
    } else {
        put_be(out, v / 256, n - 1);
        out.push((v % 256) as u8);
        assert(old(out)@ + be(v as nat, n as nat) =~= old(out)@ + be((v / 256) as nat, (n - 1) as nat)
            + seq![(v % 256) as u8]);
    }
}

pub(crate) fn put_bytes(out: &mut Vec<u8>, b: &[u8])
    ensures
        final(out)@ == old(out)@ + b@,
{
    let ghost start = out@;
    let mut i: usize = 0;
    while i < b.len()
        invariant
            0 <= i <= b@.len(),
            out@ == start + b@.take(i as int),
        decreases b@.len() - i,
    {
        out.push(b[i]);
        assert(out@ =~= start + b@.take(i + 1));
        i = i + 1;
    }
    assert(b@.take(i as int) =~= b@);
}

/// Append a string: its UTF-8 length as two bytes, then its UTF-8 bytes.
fn put_str(out: &mut Vec<u8>, s: &String)
    requires
        str_fits(s@),
    ensures
        final(out)@ == old(out)@ + str_bytes(s@),
{
    let b = s.as_str().as_bytes();
    put_be(out, b.len() as u64, 2);
    put_bytes(out, b);
    assert(final(out)@ =~= old(out)@ + str_bytes(s@));
}

fn put_byte_array(out: &mut Vec<u8>, a: &Vec<u8>)
    requires
        len_fits(a@.len()),
    ensures
        final(out)@ == old(out)@ + byte_array_bytes(a@),
{
    put_be(out, a.len() as u64, 4);
    put_bytes(out, a.as_slice());
    assert(final(out)@ =~= old(out)@ + byte_array_bytes(a@));
}

fn put_int_array(out: &mut Vec<u8>, a: &Vec<i32>)
    requires
        len_fits(a@.len()),
    ensures
        final(out)@ == old(out)@ + int_array_bytes(a@),
{
    put_be(out, a.len() as u64, 4);
    put_i32s(out, a);
    assert(final(out)@ =~= old(out)@ + int_array_bytes(a@));
}

fn put_long_array(out: &mut Vec<u8>, a: &Vec<i64>)
    requires
        len_fits(a@.len()),
    ensures
        final(out)@ == old(out)@ + long_array_bytes(a@),
{
    put_be(out, a.len() as u64, 4);
    put_i64s(out, a);
    assert(final(out)@ =~= old(out)@ + long_array_bytes(a@));
}

fn put_i8s(out: &mut Vec<u8>, a: &Vec<i8>)
    ensures
        final(out)@ == old(out)@ + i8s_bytes(a@),
{
    let ghost start = out@;
    let ghost ss = a@.map_values(|v: i8| i8_bytes(v));
    let mut i: usize = 0;
    proof {
        assert(ss.take(0) =~= Seq::<Seq<u8>>::empty());
        assert(out@ =~= start + ss.take(0).flatten());
    }
    while i < a.len()
        invariant
            0 <= i <= a@.len(),
            ss == a@.map_values(|v: i8| i8_bytes(v)),
            out@ == start + ss.take(i as int).flatten(),
        decreases a@.len() - i,
    {
        let ghost old_out = out@;
        put_be(out, a[i] as u8 as u64, 1);
        proof {
            lemma_flatten_take(ss, i as int);
            assert(out@ =~= start + ss.take(i + 1).flatten());
        }
        i = i + 1;
    }
    proof {
        assert(ss.take(a@.len() as int) =~= ss);
    }
}

fn put_i16s(out: &mut Vec<u8>, a: &Vec<i16>)
    ensures
        final(out)@ == old(out)@ + i16s_bytes(a@),
{
    let ghost start = out@;
    let ghost ss = a@.map_values(|v: i16| i16_bytes(v));
    let mut i: usize = 0;
    proof {
        assert(ss.take(0) =~= Seq::<Seq<u8>>::empty());
        assert(out@ =~= start + ss.take(0).flatten());
    }
    while i < a.len()
        invariant
            0 <= i <= a@.len(),
            ss == a@.map_values(|v: i16| i16_bytes(v)),
            out@ == start + ss.take(i as int).flatten(),
        decreases a@.len() - i,
    {
        let ghost old_out = out@;
        put_be(out, a[i] as u16 as u64, 2);
        proof {
            lemma_flatten_take(ss, i as int);
            assert(out@ =~= start + ss.take(i + 1).flatten());
        }
        i = i + 1;
    }
    proof {
        assert(ss.take(a@.len() as int) =~= ss);
    }
}

fn put_i32s(out: &mut Vec<u8>, a: &Vec<i32>)
    ensures
        final(out)@ == old(out)@ + i32s_bytes(a@),
{
    let ghost start = out@;
    let ghost ss = a@.map_values(|v: i32| i32_bytes(v));
    let mut i: usize = 0;
    proof {
        assert(ss.take(0) =~= Seq::<Seq<u8>>::empty());
        assert(out@ =~= start + ss.take(0).flatten());
    }
    while i < a.len()
        invariant
            0 <= i <= a@.len(),
            ss == a@.map_values(|v: i32| i32_bytes(v)),
            out@ == start + ss.take(i as int).flatten(),
        decreases a@.len() - i,
    {
        let ghost old_out = out@;
        put_be(out, a[i] as u32 as u64, 4);
        proof {
            lemma_flatten_take(ss, i as int);
            assert(out@ =~= start + ss.take(i + 1).flatten());
        }
        i = i + 1;
    }
    proof {
        assert(ss.take(a@.len() as int) =~= ss);
    }
}

fn put_i64s(out: &mut Vec<u8>, a: &Vec<i64>)
    ensures
        final(out)@ == old(out)@ + i64s_bytes(a@),
{
    let ghost start = out@;
    let ghost ss = a@.map_values(|v: i64| i64_bytes(v));
    let mut i: usize = 0;
    proof {
        assert(ss.take(0) =~= Seq::<Seq<u8>>::empty());
        assert(out@ =~= start + ss.take(0).flatten());
    }
    while i < a.len()
        invariant
            0 <= i <= a@.len(),
            ss == a@.map_values(|v: i64| i64_bytes(v)),
            out@ == start + ss.take(i as int).flatten(),
        decreases a@.len() - i,
    {
        let ghost old_out = out@;
        put_be(out, a[i] as u64, 8);
        proof {
            lemma_flatten_take(ss, i as int);
            assert(out@ =~= start + ss.take(i + 1).flatten());
        }
        i = i + 1;
    }
    proof {
        assert(ss.take(a@.len() as int) =~= ss);
    }
}

fn put_u32s(out: &mut Vec<u8>, a: &Vec<u32>)
    ensures
        final(out)@ == old(out)@ + u32s_bytes(a@),
{
    let ghost start = out@;
    let ghost ss = a@.map_values(|v: u32| u32_bytes(v));
    let mut i: usize = 0;
    proof {
        assert(ss.take(0) =~= Seq::<Seq<u8>>::empty());
        assert(out@ =~= start + ss.take(0).flatten());
    }
    while i < a.len()
        invariant
            0 <= i <= a@.len(),
            ss == a@.map_values(|v: u32| u32_bytes(v)),
            out@ == start + ss.take(i as int).flatten(),
        decreases a@.len() - i,
    {
        let ghost old_out = out@;
        put_be(out, a[i] as u64, 4);
        proof {
            lemma_flatten_take(ss, i as int);
            assert(out@ =~= start + ss.take(i + 1).flatten());
        }
        i = i + 1;
    }
    proof {
        assert(ss.take(a@.len() as int) =~= ss);
    }
}

fn put_u64s(out: &mut Vec<u8>, a: &Vec<u64>)
    ensures
        final(out)@ == old(out)@ + u64s_bytes(a@),
{
    let ghost start = out@;
    let ghost ss = a@.map_values(|v: u64| u64_bytes(v));
    let mut i: usize = 0;
    proof {
        assert(ss.take(0) =~= Seq::<Seq<u8>>::empty());
        assert(out@ =~= start + ss.take(0).flatten());
    }
    while i < a.len()
        invariant
            0 <= i <= a@.len(),
            ss == a@.map_values(|v: u64| u64_bytes(v)),
            out@ == start + ss.take(i as int).flatten(),
        decreases a@.len() - i,
    {
        let ghost old_out = out@;
        put_be(out, a[i], 8);
        proof {
            lemma_flatten_take(ss, i as int);
            assert(out@ =~= start + ss.take(i + 1).flatten());
        }
        i = i + 1;
    }
    proof {
        assert(ss.take(a@.len() as int) =~= ss);
    }
}

fn put_byte_arrays(out: &mut Vec<u8>, a: &Vec<Vec<u8>>)
    requires
        forall|k: int| 0 <= k < a@.len() ==> len_fits(#[trigger] a[k]@.len()),
    ensures
        final(out)@ == old(out)@ + byte_arrays_bytes(a@),
{
    let ghost start = out@;
    let ghost ss = a@.map_values(|v: Vec<u8>| byte_array_bytes(v@));
    let mut i: usize = 0;
    proof {
        assert(ss.take(0) =~= Seq::<Seq<u8>>::empty());
        assert(out@ =~= start + ss.take(0).flatten());
    }
    while i < a.len()
        invariant
            0 <= i <= a@.len(),
            ss == a@.map_values(|v: Vec<u8>| byte_array_bytes(v@)),
            out@ == start + ss.take(i as int).flatten(),
            forall|k: int| 0 <= k < a@.len() ==> len_fits(#[trigger] a[k]@.len()),
        decreases a@.len() - i,
    {
        let ghost old_out = out@;
        put_byte_array(out, &a[i]);
        proof {
            lemma_flatten_take(ss, i as int);
            assert(out@ =~= start + ss.take(i + 1).flatten());
        }
        i = i + 1;
    }
    proof {
        assert(ss.take(a@.len() as int) =~= ss);
    }
}

fn put_strings(out: &mut Vec<u8>, a: &Vec<String>)
    requires
        forall|k: int| 0 <= k < a@.len() ==> str_fits(#[trigger] a[k]@),
    ensures
        final(out)@ == old(out)@ + strings_bytes(a@),
{
    let ghost start = out@;
    let ghost ss = a@.map_values(|v: String| str_bytes(v@));
    let mut i: usize = 0;
    proof {
        assert(ss.take(0) =~= Seq::<Seq<u8>>::empty());
        assert(out@ =~= start + ss.take(0).flatten());
    }
    while i < a.len()
        invariant
            0 <= i <= a@.len(),
            ss == a@.map_values(|v: String| str_bytes(v@)),
            out@ == start + ss.take(i as int).flatten(),
            forall|k: int| 0 <= k < a@.len() ==> str_fits(#[trigger] a[k]@),
        decreases a@.len() - i,
    {
        let ghost old_out = out@;
        put_str(out, &a[i]);
        proof {
            lemma_flatten_take(ss, i as int);
            assert(out@ =~= start + ss.take(i + 1).flatten());
        }
        i = i + 1;
    }
    proof {
        assert(ss.take(a@.len() as int) =~= ss);
    }
}

fn put_int_arrays(out: &mut Vec<u8>, a: &Vec<Vec<i32>>)
    requires
        forall|k: int| 0 <= k < a@.len() ==> len_fits(#[trigger] a[k]@.len()),
    ensures
        final(out)@ == old(out)@ + int_arrays_bytes(a@),
{
    let ghost start = out@;
    let ghost ss = a@.map_values(|v: Vec<i32>| int_array_bytes(v@));
    let mut i: usize = 0;
    proof {
        assert(ss.take(0) =~= Seq::<Seq<u8>>::empty());
        assert(out@ =~= start + ss.take(0).flatten());
    }
    while i < a.len()
        invariant
            0 <= i <= a@.len(),
            ss == a@.map_values(|v: Vec<i32>| int_array_bytes(v@)),
            out@ == start + ss.take(i as int).flatten(),
            forall|k: int| 0 <= k < a@.len() ==> len_fits(#[trigger] a[k]@.len()),
        decreases a@.len() - i,
    {
        let ghost old_out = out@;
        put_int_array(out, &a[i]);
        proof {
            lemma_flatten_take(ss, i as int);
            assert(out@ =~= start + ss.take(i + 1).flatten());
        }
        i = i + 1;
    }
    proof {
        assert(ss.take(a@.len() as int) =~= ss);
    }
}

fn put_long_arrays(out: &mut Vec<u8>, a: &Vec<Vec<i64>>)
    requires
        forall|k: int| 0 <= k < a@.len() ==> len_fits(#[trigger] a[k]@.len()),
    ensures
        final(out)@ == old(out)@ + long_arrays_bytes(a@),
{
    let ghost start = out@;
    let ghost ss = a@.map_values(|v: Vec<i64>| long_array_bytes(v@));
    let mut i: usize = 0;
    proof {
        assert(ss.take(0) =~= Seq::<Seq<u8>>::empty());
        assert(out@ =~= start + ss.take(0).flatten());
    }
    while i < a.len()
        invariant
            0 <= i <= a@.len(),
            ss == a@.map_values(|v: Vec<i64>| long_array_bytes(v@)),
            out@ == start + ss.take(i as int).flatten(),
            forall|k: int| 0 <= k < a@.len() ==> len_fits(#[trigger] a[k]@.len()),
        decreases a@.len() - i,
    {
        let ghost old_out = out@;
        put_long_array(out, &a[i]);
        proof {
            lemma_flatten_take(ss, i as int);
            assert(out@ =~= start + ss.take(i + 1).flatten());
        }
        i = i + 1;
    }
    proof {
        assert(ss.take(a@.len() as int) =~= ss);
    }
}

fn put_lists(out: &mut Vec<u8>, a: &Vec<NbtList>)
    requires
        forall|k: int| 0 <= k < a@.len() ==> list_encodable(#[trigger] a[k]),
    ensures
        final(out)@ == old(out)@ + lists_chunks(*a).flatten(),
    decreases a,
{
    let ghost start = out@;
    let ghost ss = lists_chunks(*a);
    let mut i: usize = 0;
    proof {
        assert(ss.take(0) =~= Seq::<Seq<u8>>::empty());
        assert(out@ =~= start + ss.take(0).flatten());
    }
    while i < a.len()
        invariant
            0 <= i <= a@.len(),
            ss.len() == a@.len(),
            forall|k: int| 0 <= k < a@.len() ==> #[trigger] ss[k] == list_bytes(a[k]),
            out@ == start + ss.take(i as int).flatten(),
            forall|k: int| 0 <= k < a@.len() ==> list_encodable(#[trigger] a[k]),
        decreases a@.len() - i,
    {
        assert(decreases_to!(a => a[i as int]));
        put_list(out, &a[i]);
        proof {
            lemma_flatten_take(ss, i as int);
            assert(out@ =~= start + ss.take(i + 1).flatten());
        }
        i = i + 1;
    }
    proof {
        assert(ss.take(a@.len() as int) =~= ss);
    }
}

fn put_compounds(out: &mut Vec<u8>, a: &Vec<NbtCompound>)
    requires
        forall|k: int| 0 <= k < a@.len() ==> compound_encodable(#[trigger] a[k]),
    ensures
        final(out)@ == old(out)@ + compounds_chunks(*a).flatten(),
    decreases a,
{
    let ghost start = out@;
    let ghost ss = compounds_chunks(*a);
    let mut i: usize = 0;
    proof {
        assert(ss.take(0) =~= Seq::<Seq<u8>>::empty());
        assert(out@ =~= start + ss.take(0).flatten());
    }
    while i < a.len()
        invariant
            0 <= i <= a@.len(),
            ss.len() == a@.len(),
            forall|k: int| 0 <= k < a@.len() ==> #[trigger] ss[k] == compound_bytes(a[k]),
            out@ == start + ss.take(i as int).flatten(),
            forall|k: int| 0 <= k < a@.len() ==> compound_encodable(#[trigger] a[k]),
        decreases a@.len() - i,
    {
        assert(decreases_to!(a => a[i as int]));
        put_compound(out, &a[i]);
        proof {
            lemma_flatten_take(ss, i as int);
            assert(out@ =~= start + ss.take(i + 1).flatten());
        }
        i = i + 1;
    }
    proof {
        assert(ss.take(a@.len() as int) =~= ss);
    }
}

/// Append the payload of a value.
fn put_payload(out: &mut Vec<u8>, t: &Tag)
    requires
        encodable(*t),
    ensures
        final(out)@ == old(out)@ + payload(*t),
    decreases t,
{
    match t {
        Tag::End => {
            assert(old(out)@ + payload(*t) =~= old(out)@);
        },
        Tag::Byte(x) => put_be(out, *x as u8 as u64, 1),
        Tag::Short(x) => put_be(out, *x as u16 as u64, 2),
        Tag::Int(x) => put_be(out, *x as u32 as u64, 4),
        Tag::Long(x) => put_be(out, *x as u64, 8),
        Tag::Float(x) => put_be(out, *x as u64, 4),
        Tag::Double(x) => put_be(out, *x, 8),
        Tag::ByteArray(a) => put_byte_array(out, a),
        Tag::String(s) => put_str(out, s),
        Tag::List(l) => put_list(out, l),
        Tag::Compound(c) => put_compound(out, c),
        Tag::IntArray(a) => put_int_array(out, a),
        Tag::LongArray(a) => put_long_array(out, a),
    }
}

/// Append a list: element type-ID, count, then the elements.
fn put_list(out: &mut Vec<u8>, l: &NbtList)
    requires
        list_encodable(*l),
    ensures
        final(out)@ == old(out)@ + list_bytes(*l),
    decreases l,
{
    out.push(l.id());
    let n: usize = match l {
        NbtList::Empty => 0,
        NbtList::Byte(x) => x.len(),
        NbtList::Short(x) => x.len(),
        NbtList::Int(x) => x.len(),
        NbtList::Long(x) => x.len(),
        NbtList::Float(x) => x.len(),
        NbtList::Double(x) => x.len(),
        NbtList::ByteArray(x) => x.len(),
        NbtList::String(x) => x.len(),
        NbtList::List(x) => x.len(),
        NbtList::Compound(x) => x.len(),
        NbtList::IntArray(x) => x.len(),
        NbtList::LongArray(x) => x.len(),
    };
    put_be(out, n as u64, 4);
    let ghost head = out@;
    match l {
        NbtList::Empty => {},
        NbtList::Byte(x) => put_i8s(out, x),
        NbtList::Short(x) => put_i16s(out, x),
        NbtList::Int(x) => put_i32s(out, x),
        NbtList::Long(x) => put_i64s(out, x),
        NbtList::Float(x) => put_u32s(out, x),
        NbtList::Double(x) => put_u64s(out, x),
        NbtList::ByteArray(x) => put_byte_arrays(out, x),
        NbtList::String(x) => put_strings(out, x),
        NbtList::List(x) => put_lists(out, x),
        NbtList::Compound(x) => put_compounds(out, x),
        NbtList::IntArray(x) => put_int_arrays(out, x),
        NbtList::LongArray(x) => put_long_arrays(out, x),
    }
    proof {
        if l is Empty {
            assert(list_items(*l) =~= seq![]);
        }
        assert(out@ == head + list_items(*l));
        assert(out@ =~= old(out)@ + list_bytes(*l));
    }
}

/// Append a compound: each pair as type-ID, key and payload, then an end byte.
fn put_compound(out: &mut Vec<u8>, c: &NbtCompound)
    requires
        compound_encodable(*c),
    ensures
        final(out)@ == old(out)@ + compound_bytes(*c),
    decreases c,
{
    let entries = c.iter();
    let ghost es = c.entries();
    proof {
        lemma_entries_decrease(*c);
        lemma_compound_encodable(*c);
    }
    let ghost start = out@;
    let ghost ss = compound_chunks(*c);
    let mut i: usize = 0;
    proof {
        assert(ss.take(0) =~= Seq::<Seq<u8>>::empty());
        assert(out@ =~= start + ss.take(0).flatten());
    }
    while i < entries.len()
        invariant
            0 <= i <= es.len(),
            entries@ == es,
            es == c.entries(),
            ss.len() == es.len(),
            forall|k: int|
                0 <= k < es.len() ==> #[trigger] ss[k] == seq![es[k].1.spec_id()] + str_bytes(
                    es[k].0@,
                ) + payload(es[k].1),
            forall|k: int| 0 <= k < es.len() ==> decreases_to!(*c => #[trigger] es[k].1),
            forall|k: int|
                0 <= k < es.len() ==> str_fits(#[trigger] es[k].0@) && encodable(es[k].1),
            out@ == start + ss.take(i as int).flatten(),
        decreases es.len() - i,
    {
        let ghost before = out@;
        out.push(entries[i].1.id());
        put_str(out, &entries[i].0);
        put_payload(out, &entries[i].1);
        proof {
            assert(out@ =~= before + ss[i as int]);
            lemma_flatten_take(ss, i as int);
            assert(out@ =~= start + ss.take(i + 1).flatten());
        }
        i = i + 1;
    }
    out.push(0);
    proof {
        assert(ss.take(es.len() as int) =~= ss);
        assert(out@ =~= old(out)@ + compound_bytes(*c));
    }
}

/// Encode a value: its type-ID, then its payload.
pub fn encode(t: &Tag) -> (r: Vec<u8>)
    requires
        encodable(*t),
    ensures
        r@ == seq![t.spec_id()] + payload(*t),
{
    let mut out: Vec<u8> = Vec::new();
    out.push(t.id());
    put_payload(&mut out, t);
    out
}

/// Encode a value under a name, as the root of a stream carries it: its
/// type-ID, the name as a string, then its payload.
pub fn encode_named(name: &String, t: &Tag) -> (r: Vec<u8>)
    requires
        str_fits(name@),
        encodable(*t),
    ensures
        r@ == seq![t.spec_id()] + str_bytes(name@) + payload(*t),
{
    let mut out: Vec<u8> = Vec::new();
    out.push(t.id());
    put_str(&mut out, name);
    put_payload(&mut out, t);
    out
}

/// Why a byte stream could not be decoded.
#[derive(Debug, Clone, Copy, PartialEq, Eq, Structural)]
pub enum NbtError {
    /// A type-ID byte outside `0 ..= 12`.
    UnknownTypeId(u8),
    /// The stream ended before a declared length or payload was complete.
    UnexpectedEndOfInput,
    /// Declared string bytes are not valid UTF-8.
    InvalidStringEncoding,
    /// A declared array length is negative, or a list of end tags is not empty.
    NegativeOrExcessiveLength(i32),
    /// Lists and compounds are nested deeper than `MAX_DEPTH`.
    RecursionLimitExceeded,
}

/// How deeply lists and compounds may nest in a decoded stream.
pub const MAX_DEPTH: usize = 512;

/// Whether `x` stands in `b` at `pos`.
pub open spec fn at(b: Seq<u8>, pos: int, x: Seq<u8>) -> bool {
    0 <= pos && pos + x.len() <= b.len() && b.subrange(pos, pos + x.len()) == x
}

pub proof fn lemma_at_split(b: Seq<u8>, pos: int, x: Seq<u8>, y: Seq<u8>)
    requires
        at(b, pos, x + y),
    ensures
        at(b, pos, x),
        at(b, pos + x.len(), y),
{
    let big = b.subrange(pos, pos + (x + y).len());
    assert(big == x + y);
    assert(b.subrange(pos, pos + x.len()) =~= big.subrange(0, x.len() as int));
    assert(big.subrange(0, x.len() as int) =~= x);
    assert(b.subrange(pos + x.len(), pos + x.len() + y.len()) =~= big.subrange(
        x.len() as int,
        (x.len() + y.len()) as int,
    ));
    assert(big.subrange(x.len() as int, (x.len() + y.len()) as int) =~= y);
}

pub proof fn lemma_be_len(v: nat, n: nat)
    ensures
        be(v, n).len() == n,
    decreases n,
{
    if n > 0 {
        lemma_be_len(v / 256, (n - 1) as nat);
    }
}

proof fn lemma_be_injective(u: nat, v: nat, n: nat)
    requires
        u < pow256(n),
        v < pow256(n),
        be(u, n) == be(v, n),
    ensures
        u == v,
    decreases n,
{
    if n == 0 {
    } else {
        let m = (n - 1) as nat;
        lemma_be_len(u / 256, m);
        lemma_be_len(v / 256, m);
        assert(be(u, n).last() == be(v, n).last());
        assert(be(u, n).drop_last() =~= be(u / 256, m));
        assert(be(v, n).drop_last() =~= be(v / 256, m));
        assert(u / 256 < pow256(m) && v / 256 < pow256(m)) by (nonlinear_arith)
            requires
                u < pow256(n),
                v < pow256(n),
                pow256(n) == 256 * pow256(m);
        lemma_be_injective(u / 256, v / 256, m);
        assert(u == 256 * (u / 256) + u % 256 && v == 256 * (v / 256) + v % 256) by (nonlinear_arith);
        assert(be(u, n).last() == (u % 256) as u8);
        assert(be(v, n).last() == (v % 256) as u8);
        assert(0 <= u % 256 < 256 && 0 <= v % 256 < 256);
        assert(u % 256 == v % 256);
    }
}

proof fn lemma_flatten_uniform(ss: Seq<Seq<u8>>, w: nat)
    requires
        forall|k: int| 0 <= k < ss.len() ==> (#[trigger] ss[k]).len() == w,
    ensures
        ss.flatten().len() == w * ss.len(),
    decreases ss.len(),
{
    if ss.len() > 0 {
        lemma_flatten_uniform(ss.drop_first(), w);
        assert(w * ss.len() == w + w * (ss.len() - 1)) by (nonlinear_arith);
    }
}

proof fn lemma_flatten_min(ss: Seq<Seq<u8>>, w: nat)
    requires
        forall|k: int| 0 <= k < ss.len() ==> (#[trigger] ss[k]).len() >= w,
    ensures
        ss.flatten().len() >= w * ss.len(),
    decreases ss.len(),
{
    if ss.len() > 0 {
        assert forall|k: int| 0 <= k < ss.drop_first().len() implies (#[trigger] ss.drop_first()[k]).len() >= w by {
            assert(ss.drop_first()[k] == ss[k + 1]);
        }
        lemma_flatten_min(ss.drop_first(), w);
        assert(ss[0].len() >= w);
        assert(w * ss.len() == w + w * (ss.len() - 1)) by (nonlinear_arith);
    }
}

/// Where chunk `i` of a flattened sequence stands.
proof fn lemma_at_chunk(b: Seq<u8>, pos: int, ss: Seq<Seq<u8>>, i: int)
    requires
        at(b, pos, ss.flatten()),
        0 <= i < ss.len(),
    ensures
        at(b, pos + ss.take(i).flatten().len(), ss[i]),
{
    assert(ss =~= ss.take(i) + ss.skip(i));
    vstd::seq_lib::lemma_flatten_concat(ss.take(i), ss.skip(i));
    assert(ss.skip(i) =~= seq![ss[i]] + ss.skip(i + 1));
    vstd::seq_lib::lemma_flatten_concat(seq![ss[i]], ss.skip(i + 1));
    seq![ss[i]].lemma_flatten_one_element();
    lemma_at_split(b, pos, ss.take(i).flatten(), ss.skip(i).flatten());
    lemma_at_split(b, pos + ss.take(i).flatten().len(), ss[i], ss.skip(i + 1).flatten());
}

/// `256` to the power `n`.
pub open spec fn pow256(n: nat) -> nat
    decreases n,
{
    if n == 0 {
        1
    } else {
        256 * pow256((n - 1) as nat)
    }
}

/// Read `n` bytes as a big-endian number.
pub(crate) fn read_be(bytes: &[u8], pos: usize, n: usize) -> (r: Result<(u64, usize), NbtError>)
    requires
        n <= 8,
    ensures
        r is Ok <==> pos + n <= bytes@.len(),
        r matches Ok((v, end)) ==> {
            &&& end == pos + n
            &&& v < pow256(n as nat)
            &&& be(v as nat, n as nat) == bytes@.subrange(pos as int, end as int)
        },
        r matches Err(e) ==> e == NbtError::UnexpectedEndOfInput,
        forall|v: nat|
            v < pow256(n as nat) && #[trigger] at(bytes@, pos as int, be(v, n as nat)) ==> r == Ok::<
                (u64, usize),
                NbtError,
            >((v as u64, (pos + n) as usize)),
    decreases n,
{
    proof {
        lemma_be_len(0, n as nat);
        assert forall|v: nat| #[trigger] at(bytes@, pos as int, be(v, n as nat)) implies pos + n <= bytes@.len() by {
            lemma_be_len(v, n as nat);
        }
    }
    if n > bytes.len() || pos > bytes.len() - n {
        return Err(NbtError::UnexpectedEndOfInput);
    }
    if n == 0 {
        assert(bytes@.subrange(pos as int, pos as int) =~= seq![]);
        return Ok((0, pos));
    }
    let (u, p) = read_be(bytes, pos, n - 1)?;
    let b = bytes[p];
    proof {
        assert(pow256((n - 1) as nat) <= pow256(7)) by {
            lemma_pow256_mono((n - 1) as nat, 7);
        }
        reveal_with_fuel(pow256, 8);
        assert(pow256(7) == 0x100_0000_0000_0000);
        assert(pow256(n as nat) == 256 * pow256((n - 1) as nat));
    }
    let v = u * 256 + b as u64;
    proof {
        assert(v / 256 == u && v % 256 == b) by (nonlinear_arith)
            requires
                v == u * 256 + b,
                b < 256;
        assert(v < pow256(n as nat)) by (nonlinear_arith)
            requires
                v == u * 256 + b,
                b < 256,
                u < pow256((n - 1) as nat),
                pow256(n as nat) == 256 * pow256((n - 1) as nat);
        assert(bytes@.subrange(pos as int, pos + n) =~= bytes@.subrange(pos as int, p as int).push(b));
    }
    proof {
        assert forall|w: nat| w < pow256(n as nat) && #[trigger] at(bytes@, pos as int, be(w, n as nat)) implies w
            == v by {
            lemma_be_len(w, n as nat);
            lemma_be_injective(w, v as nat, n as nat);
        }
    }
    Ok((v, pos + n))
}

proof fn lemma_pow256_mono(a: nat, b: nat)
    requires
        a <= b,
    ensures
        pow256(a) <= pow256(b),
    decreases b,
{
    if a < b {
        lemma_pow256_mono(a, (b - 1) as nat);
    }
}

/// Relies on `std::str::from_utf8`: it accepts exactly the valid UTF-8
/// byte strings, and the string it returns holds the characters they encode.
#[verifier::external_body]
pub(crate) fn str_from_utf8(b: &[u8]) -> (r: Option<&str>)
    ensures
        r is Some <==> valid_utf8(b@),
        r matches Some(s) ==> s@ == decode_utf8(b@),
{
    std::str::from_utf8(b).ok()
}

pub(crate) fn read_u8(bytes: &[u8], pos: usize) -> (r: Result<(u8, usize), NbtError>)
    ensures
        r is Ok <==> pos < bytes@.len(),
        r matches Ok((v, end)) ==> end == pos + 1 && v == bytes@[pos as int],
        r matches Err(e) ==> e == NbtError::UnexpectedEndOfInput,
{
    if pos >= bytes.len() {
        return Err(NbtError::UnexpectedEndOfInput);
    }
    Ok((bytes[pos], pos + 1))
}

/// The string length declared by the two bytes at `pos`.
pub open spec fn declared_len(bytes: Seq<u8>, pos: int) -> nat {
    bytes[pos] as nat * 256 + bytes[pos + 1] as nat
}

/// Whether the string at `pos` is cut short: its two length bytes, or the
/// bytes they declare, run past the end.
pub open spec fn string_cut(bytes: Seq<u8>, pos: int) -> bool {
    pos + 2 > bytes.len() || declared_len(bytes, pos) > bytes.len() - pos - 2
}

/// Whether the string at `pos` is whole and its bytes are valid UTF-8.
pub open spec fn string_ok(bytes: Seq<u8>, pos: int) -> bool {
    !string_cut(bytes, pos) && valid_utf8(bytes.subrange(pos + 2, pos + 2 + declared_len(bytes, pos)))
}

/// Whether the first entry of the compound at `pos` is an array whose
/// declared length, after a whole and valid key, is negative.
pub open spec fn first_entry_negative_length(bytes: Seq<u8>, pos: int) -> bool {
    let t = bytes[pos];
    let at_len = pos + 3 + declared_len(bytes, pos + 1);
    &&& pos < bytes.len()
    &&& (t == BYTE_ARRAY_ID || t == INT_ARRAY_ID || t == LONG_ARRAY_ID)
    &&& string_ok(bytes, pos + 1)
    &&& at_len + 4 <= bytes.len()
    &&& bytes[at_len] >= 128
}

/// Read a length-prefixed UTF-8 string.
fn read_string(bytes: &[u8], pos: usize) -> (r: Result<(String, usize), NbtError>)
    ensures
        pos + 2 <= bytes@.len() && declared_len(bytes@, pos as int) > bytes@.len() - pos - 2 ==> r
            == Err::<(String, usize), NbtError>(NbtError::UnexpectedEndOfInput),
        forall|s: Seq<char>|
            str_fits(s) && #[trigger] at(bytes@, pos as int, str_bytes(s)) ==> (r matches Ok((t, end)) && t@
                == s && end == pos + str_bytes(s).len()),
        r matches Ok((s, end)) ==> pos <= end <= bytes@.len() && bytes@.subrange(pos as int, end as int)
            == str_bytes(s@),
        r matches Err(e) ==> e == NbtError::UnexpectedEndOfInput || e == NbtError::InvalidStringEncoding,
        r is Ok <==> string_ok(bytes@, pos as int),
        r matches Ok((_, end)) ==> end == pos + 2 + declared_len(bytes@, pos as int),
        string_cut(bytes@, pos as int) ==> r == Err::<(String, usize), NbtError>(NbtError::UnexpectedEndOfInput),
        !string_cut(bytes@, pos as int) && !string_ok(bytes@, pos as int) ==> r == Err::<(String, usize), NbtError>(
            NbtError::InvalidStringEncoding,
        ),
{
    proof {
        reveal_with_fuel(pow256, 3);
        assert forall|s: Seq<char>| str_fits(s) && #[trigger] at(bytes@, pos as int, str_bytes(s)) implies at(
            bytes@,
            pos as int,
            be(encode_utf8(s).len(), 2),
        ) && encode_utf8(s).len() < pow256(2) by {
            lemma_at_split(bytes@, pos as int, be(encode_utf8(s).len(), 2), encode_utf8(s));
        }
    }
    let (len, p) = read_be(bytes, pos, 2)?;
    proof {
        reveal_with_fuel(pow256, 3);
        assert(pow256(2) == 65536);
        reveal_with_fuel(be, 3);
        let sub = bytes@.subrange(pos as int, p as int);
        assert(sub[0] == bytes@[pos as int] && sub[1] == bytes@[pos + 1]);
        assert(be(len as nat, 2)[0] == ((len as nat / 256) % 256) as u8);
        assert(be(len as nat, 2)[1] == (len as nat % 256) as u8);
        assert(len == (len / 256) % 256 * 256 + len % 256) by (nonlinear_arith)
            requires
                len < 65536;
    }
    let len = len as usize;
    proof {
        assert forall|s: Seq<char>| str_fits(s) && #[trigger] at(bytes@, pos as int, str_bytes(s)) implies len
            == encode_utf8(s).len() && len <= bytes@.len() - p && at(bytes@, p as int, encode_utf8(s)) by {
            lemma_at_split(bytes@, pos as int, be(encode_utf8(s).len(), 2), encode_utf8(s));
            lemma_be_len(encode_utf8(s).len(), 2);
        }
    }
    if len > bytes.len() - p {
        return Err(NbtError::UnexpectedEndOfInput);
    }
    let end = p + len;
    let raw = &bytes[p..end];
    proof {
        assert forall|s: Seq<char>| str_fits(s) && #[trigger] at(bytes@, pos as int, str_bytes(s)) implies valid_utf8(
            raw@,
        ) && decode_utf8(raw@) == s && end == pos + str_bytes(s).len() by {
            assert(raw@ =~= bytes@.subrange(p as int, end as int));
            encode_utf8_valid_utf8(s);
            encode_utf8_decode_utf8(s);
            lemma_be_len(encode_utf8(s).len(), 2);
        }
    }
    match str_from_utf8(raw) {
        Some(s) => {
            proof {
                decode_utf8_encode_utf8(raw@);
                assert(raw@ =~= bytes@.subrange(p as int, end as int));
                assert(bytes@.subrange(pos as int, end as int) =~= bytes@.subrange(pos as int, p as int)
                    + raw@);
            }
            Ok((s.to_owned(), end))
        },
        None => Err(NbtError::InvalidStringEncoding),
    }
}

/// Read a signed four-byte length; a negative one is refused.
fn read_len(bytes: &[u8], pos: usize) -> (r: Result<(usize, usize), NbtError>)
    ensures
        r matches Ok((n, end)) ==> {
            &&& end == pos + 4
            &&& end <= bytes@.len()
            &&& n <= 0x7fff_ffff
            &&& be(n as nat, 4) == bytes@.subrange(pos as int, end as int)
        },
        r matches Err(e) ==> e == NbtError::UnexpectedEndOfInput || e is NegativeOrExcessiveLength,
        pos + 4 <= bytes@.len() && bytes@[pos as int] >= 128 ==> (r matches Err(e) && e is NegativeOrExcessiveLength),
        forall|n: nat|
            len_fits(n) && #[trigger] at(bytes@, pos as int, be(n, 4)) ==> r == Ok::<(usize, usize), NbtError>(
                (n as usize, (pos + 4) as usize),
            ),
{
    proof {
        reveal_with_fuel(pow256, 5);
    }
    let (v, p) = read_be(bytes, pos, 4)?;
    proof {
        reveal_with_fuel(pow256, 5);
        assert(pow256(4) == 0x1_0000_0000);
    }
    let n = v as u32 as i32;
    if n < 0 {
        return Err(NbtError::NegativeOrExcessiveLength(n));
    }
    proof {
        assert(v < 0x1_0000_0000 && (v as u32 as i32) >= 0 ==> (v as u32 as i32) as usize == v
            && v <= 0x7fff_ffff) by (bit_vector);
        reveal_with_fuel(be, 5);
        let vn = v as nat;
        assert(be(vn, 4)[0] == ((vn / 256 / 256 / 256) % 256) as u8);
        assert(bytes@.subrange(pos as int, p as int)[0] == bytes@[pos as int]);
        assert(vn / 256 / 256 / 256 < 128) by (nonlinear_arith)
            requires
                vn <= 0x7fff_ffff;
    }
    Ok((n as usize, p))
}

fn read_i8s(bytes: &[u8], pos: usize, count: usize) -> (r: Result<(Vec<i8>, usize), NbtError>)
    requires
        pos <= bytes@.len(),
    ensures
        r matches Ok((v, end)) ==> v@.len() == count && pos <= end <= bytes@.len(),
        r matches Err(e) ==> e == NbtError::UnexpectedEndOfInput,
        forall|a: Seq<i8>|
            a.len() == count && #[trigger] at(bytes@, pos as int, i8s_bytes(a)) ==> (r matches Ok(
                (v, end),
            ) && v@ == a && end == pos + i8s_bytes(a).len()),
{
    let ghost f = |v: i8| i8_bytes(v);
    proof {
        reveal_with_fuel(pow256, 9);
        assert forall|a: Seq<i8>| a.len() == count && #[trigger] at(bytes@, pos as int, i8s_bytes(a)) implies count
            <= (bytes@.len() - pos) / 1 by {
            assert forall|k: int| 0 <= k < a.len() implies (#[trigger] a.map_values(f)[k]).len() == 1 by {
                lemma_be_len(a[k] as u8 as nat, 1);
            }
            lemma_flatten_uniform(a.map_values(f), 1);
            assert(count <= (bytes@.len() - pos) / 1) by (nonlinear_arith)
                requires
                    1 * count <= bytes@.len() - pos;
        }
    }
    if count > bytes.len() - pos {
        return Err(NbtError::UnexpectedEndOfInput);
    }
    let mut items: Vec<i8> = Vec::with_capacity(count);
    let mut p = pos;
    let mut i: usize = 0;
    proof {
        assert forall|a: Seq<i8>| a.len() == count && #[trigger] at(bytes@, pos as int, i8s_bytes(a)) implies items@
            == a.take(0) && p == pos + a.map_values(f).take(0).flatten().len() by {
            assert(a.map_values(f).take(0) =~= Seq::<Seq<u8>>::empty());
            assert(items@ =~= a.take(0));
        }
    }
    while i < count
        invariant
            0 <= i <= count,
            count <= (bytes@.len() - pos) / 1,
            p == pos + i * 1,
            pos <= bytes@.len(),
            items@.len() == i,
            f == |v: i8| i8_bytes(v),
            forall|a: Seq<i8>|
                a.len() == count && #[trigger] at(bytes@, pos as int, i8s_bytes(a)) ==> items@ == a.take(i as int)
                    && p == pos + a.map_values(f).take(i as int).flatten().len(),
        decreases count - i,
    {
        proof {
            assert(p + 1 <= bytes@.len()) by (nonlinear_arith)
                requires
                    p == pos + i * 1,
                    i < count,
                    count <= (bytes@.len() - pos) / 1,
                    pos <= bytes@.len();
            assert forall|a: Seq<i8>| a.len() == count && #[trigger] at(bytes@, pos as int, i8s_bytes(a)) implies at(
                bytes@,
                p as int,
                be(a[i as int] as u8 as nat, 1),
            ) && (a[i as int] as u8 as nat) < pow256(1) by {
                reveal_with_fuel(pow256, 9);
                lemma_at_chunk(bytes@, pos as int, a.map_values(f), i as int);
                assert(a.map_values(f)[i as int] == f(a[i as int]));
            }
        }
        let (v, next) = read_be(bytes, p, 1)?;
        let ghost before = items@;
        items.push(v as u8 as i8);
        proof {
            assert forall|a: Seq<i8>| a.len() == count && #[trigger] at(bytes@, pos as int, i8s_bytes(a)) implies items@
                == a.take(i + 1) && next == pos + a.map_values(f).take(i + 1).flatten().len() by {
                let x = a[i as int];
                assert(v as nat == (x as u8 as nat));
                assert((v as u8 as i8) == x) by (bit_vector)
                    requires
                        v == x as u8 as u64;
                assert(items@ =~= a.take(i + 1));
                lemma_flatten_take(a.map_values(f), i as int);
                lemma_be_len(a[i as int] as u8 as nat, 1);
            }
        }
        p = next;
        i = i + 1;
    }
    proof {
        assert forall|a: Seq<i8>| a.len() == count && #[trigger] at(bytes@, pos as int, i8s_bytes(a)) implies items@
            == a && p == pos + i8s_bytes(a).len() by {
            assert(a.take(count as int) =~= a);
            assert(a.map_values(f).take(count as int) =~= a.map_values(f));
        }
    }
    Ok((items, p))
}

fn read_i16s(bytes: &[u8], pos: usize, count: usize) -> (r: Result<(Vec<i16>, usize), NbtError>)
    requires
        pos <= bytes@.len(),
    ensures
        r matches Ok((v, end)) ==> v@.len() == count && pos <= end <= bytes@.len(),
        r matches Err(e) ==> e == NbtError::UnexpectedEndOfInput,
        forall|a: Seq<i16>|
            a.len() == count && #[trigger] at(bytes@, pos as int, i16s_bytes(a)) ==> (r matches Ok(
                (v, end),
            ) && v@ == a && end == pos + i16s_bytes(a).len()),
{
    let ghost f = |v: i16| i16_bytes(v);
    proof {
        reveal_with_fuel(pow256, 9);
        assert forall|a: Seq<i16>| a.len() == count && #[trigger] at(bytes@, pos as int, i16s_bytes(a)) implies count
            <= (bytes@.len() - pos) / 2 by {
            assert forall|k: int| 0 <= k < a.len() implies (#[trigger] a.map_values(f)[k]).len() == 2 by {
                lemma_be_len(a[k] as u16 as nat, 2);
            }
            lemma_flatten_uniform(a.map_values(f), 2);
            assert(count <= (bytes@.len() - pos) / 2) by (nonlinear_arith)
                requires
                    2 * count <= bytes@.len() - pos;
        }
    }
    if count > (bytes.len() - pos) / 2 {
        return Err(NbtError::UnexpectedEndOfInput);
    }
    let mut items: Vec<i16> = Vec::with_capacity(count);
    let mut p = pos;
    let mut i: usize = 0;
    proof {
        assert forall|a: Seq<i16>| a.len() == count && #[trigger] at(bytes@, pos as int, i16s_bytes(a)) implies items@
            == a.take(0) && p == pos + a.map_values(f).take(0).flatten().len() by {
            assert(a.map_values(f).take(0) =~= Seq::<Seq<u8>>::empty());
            assert(items@ =~= a.take(0));
        }
    }
    while i < count
        invariant
            0 <= i <= count,
            count <= (bytes@.len() - pos) / 2,
            p == pos + i * 2,
            pos <= bytes@.len(),
            items@.len() == i,
            f == |v: i16| i16_bytes(v),
            forall|a: Seq<i16>|
                a.len() == count && #[trigger] at(bytes@, pos as int, i16s_bytes(a)) ==> items@ == a.take(i as int)
                    && p == pos + a.map_values(f).take(i as int).flatten().len(),
        decreases count - i,
    {
        proof {
            assert(p + 2 <= bytes@.len()) by (nonlinear_arith)
                requires
                    p == pos + i * 2,
                    i < count,
                    count <= (bytes@.len() - pos) / 2,
                    pos <= bytes@.len();
            assert forall|a: Seq<i16>| a.len() == count && #[trigger] at(bytes@, pos as int, i16s_bytes(a)) implies at(
                bytes@,
                p as int,
                be(a[i as int] as u16 as nat, 2),
            ) && (a[i as int] as u16 as nat) < pow256(2) by {
                reveal_with_fuel(pow256, 9);
                lemma_at_chunk(bytes@, pos as int, a.map_values(f), i as int);
                assert(a.map_values(f)[i as int] == f(a[i as int]));
            }
        }
        let (v, next) = read_be(bytes, p, 2)?;
        let ghost before = items@;
        items.push(v as u16 as i16);
        proof {
            assert forall|a: Seq<i16>| a.len() == count && #[trigger] at(bytes@, pos as int, i16s_bytes(a)) implies items@
                == a.take(i + 1) && next == pos + a.map_values(f).take(i + 1).flatten().len() by {
                let x = a[i as int];
                assert(v as nat == (x as u16 as nat));
                assert((v as u16 as i16) == x) by (bit_vector)
                    requires
                        v == x as u16 as u64;
                assert(items@ =~= a.take(i + 1));
                lemma_flatten_take(a.map_values(f), i as int);
                lemma_be_len(a[i as int] as u16 as nat, 2);
            }
        }
        p = next;
        i = i + 1;
    }
    proof {
        assert forall|a: Seq<i16>| a.len() == count && #[trigger] at(bytes@, pos as int, i16s_bytes(a)) implies items@
            == a && p == pos + i16s_bytes(a).len() by {
            assert(a.take(count as int) =~= a);
            assert(a.map_values(f).take(count as int) =~= a.map_values(f));
        }
    }
    Ok((items, p))
}

fn read_i32s(bytes: &[u8], pos: usize, count: usize) -> (r: Result<(Vec<i32>, usize), NbtError>)
    requires
        pos <= bytes@.len(),
    ensures
        r matches Ok((v, end)) ==> v@.len() == count && pos <= end <= bytes@.len(),
        r matches Err(e) ==> e == NbtError::UnexpectedEndOfInput,
        forall|a: Seq<i32>|
            a.len() == count && #[trigger] at(bytes@, pos as int, i32s_bytes(a)) ==> (r matches Ok(
                (v, end),
            ) && v@ == a && end == pos + i32s_bytes(a).len()),
{
    let ghost f = |v: i32| i32_bytes(v);
    proof {
        reveal_with_fuel(pow256, 9);
        assert forall|a: Seq<i32>| a.len() == count && #[trigger] at(bytes@, pos as int, i32s_bytes(a)) implies count
            <= (bytes@.len() - pos) / 4 by {
            assert forall|k: int| 0 <= k < a.len() implies (#[trigger] a.map_values(f)[k]).len() == 4 by {
                lemma_be_len(a[k] as u32 as nat, 4);
            }
            lemma_flatten_uniform(a.map_values(f), 4);
            assert(count <= (bytes@.len() - pos) / 4) by (nonlinear_arith)
                requires
                    4 * count <= bytes@.len() - pos;
        }
    }
    if count > (bytes.len() - pos) / 4 {
        return Err(NbtError::UnexpectedEndOfInput);
    }
    let mut items: Vec<i32> = Vec::with_capacity(count);
    let mut p = pos;
    let mut i: usize = 0;
    proof {
        assert forall|a: Seq<i32>| a.len() == count && #[trigger] at(bytes@, pos as int, i32s_bytes(a)) implies items@
            == a.take(0) && p == pos + a.map_values(f).take(0).flatten().len() by {
            assert(a.map_values(f).take(0) =~= Seq::<Seq<u8>>::empty());
            assert(items@ =~= a.take(0));
        }
    }
    while i < count
        invariant
            0 <= i <= count,
            count <= (bytes@.len() - pos) / 4,
            p == pos + i * 4,
            pos <= bytes@.len(),
            items@.len() == i,
            f == |v: i32| i32_bytes(v),
            forall|a: Seq<i32>|
                a.len() == count && #[trigger] at(bytes@, pos as int, i32s_bytes(a)) ==> items@ == a.take(i as int)
                    && p == pos + a.map_values(f).take(i as int).flatten().len(),
        decreases count - i,
    {
        proof {
            assert(p + 4 <= bytes@.len()) by (nonlinear_arith)
                requires
                    p == pos + i * 4,
                    i < count,
                    count <= (bytes@.len() - pos) / 4,
                    pos <= bytes@.len();
            assert forall|a: Seq<i32>| a.len() == count && #[trigger] at(bytes@, pos as int, i32s_bytes(a)) implies at(
                bytes@,
                p as int,
                be(a[i as int] as u32 as nat, 4),
            ) && (a[i as int] as u32 as nat) < pow256(4) by {
                reveal_with_fuel(pow256, 9);
                lemma_at_chunk(bytes@, pos as int, a.map_values(f), i as int);
                assert(a.map_values(f)[i as int] == f(a[i as int]));
            }
        }
        let (v, next) = read_be(bytes, p, 4)?;
        let ghost before = items@;
        items.push(v as u32 as i32);
        proof {
            assert forall|a: Seq<i32>| a.len() == count && #[trigger] at(bytes@, pos as int, i32s_bytes(a)) implies items@
                == a.take(i + 1) && next == pos + a.map_values(f).take(i + 1).flatten().len() by {
                let x = a[i as int];
                assert(v as nat == (x as u32 as nat));
                assert((v as u32 as i32) == x) by (bit_vector)
                    requires
                        v == x as u32 as u64;
                assert(items@ =~= a.take(i + 1));
                lemma_flatten_take(a.map_values(f), i as int);
                lemma_be_len(a[i as int] as u32 as nat, 4);
            }
        }
        p = next;
        i = i + 1;
    }
    proof {
        assert forall|a: Seq<i32>| a.len() == count && #[trigger] at(bytes@, pos as int, i32s_bytes(a)) implies items@
            == a && p == pos + i32s_bytes(a).len() by {
            assert(a.take(count as int) =~= a);
            assert(a.map_values(f).take(count as int) =~= a.map_values(f));
        }
    }
    Ok((items, p))
}

fn read_i64s(bytes: &[u8], pos: usize, count: usize) -> (r: Result<(Vec<i64>, usize), NbtError>)
    requires
        pos <= bytes@.len(),
    ensures
        r matches Ok((v, end)) ==> v@.len() == count && pos <= end <= bytes@.len(),
        r matches Err(e) ==> e == NbtError::UnexpectedEndOfInput,
        forall|a: Seq<i64>|
            a.len() == count && #[trigger] at(bytes@, pos as int, i64s_bytes(a)) ==> (r matches Ok(
                (v, end),
            ) && v@ == a && end == pos + i64s_bytes(a).len()),
{
    let ghost f = |v: i64| i64_bytes(v);
    proof {
        reveal_with_fuel(pow256, 9);
        assert forall|a: Seq<i64>| a.len() == count && #[trigger] at(bytes@, pos as int, i64s_bytes(a)) implies count
            <= (bytes@.len() - pos) / 8 by {
            assert forall|k: int| 0 <= k < a.len() implies (#[trigger] a.map_values(f)[k]).len() == 8 by {
                lemma_be_len(a[k] as u64 as nat, 8);
            }
            lemma_flatten_uniform(a.map_values(f), 8);
            assert(count <= (bytes@.len() - pos) / 8) by (nonlinear_arith)
                requires
                    8 * count <= bytes@.len() - pos;
        }
    }
    if count > (bytes.len() - pos) / 8 {
        return Err(NbtError::UnexpectedEndOfInput);
    }
    let mut items: Vec<i64> = Vec::with_capacity(count);
    let mut p = pos;
    let mut i: usize = 0;
    proof {
        assert forall|a: Seq<i64>| a.len() == count && #[trigger] at(bytes@, pos as int, i64s_bytes(a)) implies items@
            == a.take(0) && p == pos + a.map_values(f).take(0).flatten().len() by {
            assert(a.map_values(f).take(0) =~= Seq::<Seq<u8>>::empty());
            assert(items@ =~= a.take(0));
        }
    }
    while i < count
        invariant
            0 <= i <= count,
            count <= (bytes@.len() - pos) / 8,
            p == pos + i * 8,
            pos <= bytes@.len(),
            items@.len() == i,
            f == |v: i64| i64_bytes(v),
            forall|a: Seq<i64>|
                a.len() == count && #[trigger] at(bytes@, pos as int, i64s_bytes(a)) ==> items@ == a.take(i as int)
                    && p == pos + a.map_values(f).take(i as int).flatten().len(),
        decreases count - i,
    {
        proof {
            assert(p + 8 <= bytes@.len()) by (nonlinear_arith)
                requires
                    p == pos + i * 8,
                    i < count,
                    count <= (bytes@.len() - pos) / 8,
                    pos <= bytes@.len();
            assert forall|a: Seq<i64>| a.len() == count && #[trigger] at(bytes@, pos as int, i64s_bytes(a)) implies at(
                bytes@,
                p as int,
                be(a[i as int] as u64 as nat, 8),
            ) && (a[i as int] as u64 as nat) < pow256(8) by {
                reveal_with_fuel(pow256, 9);
                lemma_at_chunk(bytes@, pos as int, a.map_values(f), i as int);
                assert(a.map_values(f)[i as int] == f(a[i as int]));
            }
        }
        let (v, next) = read_be(bytes, p, 8)?;
        let ghost before = items@;
        items.push(v as i64);
        proof {
            assert forall|a: Seq<i64>| a.len() == count && #[trigger] at(bytes@, pos as int, i64s_bytes(a)) implies items@
                == a.take(i + 1) && next == pos + a.map_values(f).take(i + 1).flatten().len() by {
                let x = a[i as int];
                assert(v as nat == (x as u64 as nat));
                assert((v as i64) == x) by (bit_vector)
                    requires
                        v == x as u64;
                assert(items@ =~= a.take(i + 1));
                lemma_flatten_take(a.map_values(f), i as int);
                lemma_be_len(a[i as int] as u64 as nat, 8);
            }
        }
        p = next;
        i = i + 1;
    }
    proof {
        assert forall|a: Seq<i64>| a.len() == count && #[trigger] at(bytes@, pos as int, i64s_bytes(a)) implies items@
            == a && p == pos + i64s_bytes(a).len() by {
            assert(a.take(count as int) =~= a);
            assert(a.map_values(f).take(count as int) =~= a.map_values(f));
        }
    }
    Ok((items, p))
}

fn read_u32s(bytes: &[u8], pos: usize, count: usize) -> (r: Result<(Vec<u32>, usize), NbtError>)
    requires
        pos <= bytes@.len(),
    ensures
        r matches Ok((v, end)) ==> v@.len() == count && pos <= end <= bytes@.len(),
        r matches Err(e) ==> e == NbtError::UnexpectedEndOfInput,
        forall|a: Seq<u32>|
            a.len() == count && #[trigger] at(bytes@, pos as int, u32s_bytes(a)) ==> (r matches Ok(
                (v, end),
            ) && v@ == a && end == pos + u32s_bytes(a).len()),
{
    let ghost f = |v: u32| u32_bytes(v);
    proof {
        reveal_with_fuel(pow256, 9);
        assert forall|a: Seq<u32>| a.len() == count && #[trigger] at(bytes@, pos as int, u32s_bytes(a)) implies count
            <= (bytes@.len() - pos) / 4 by {
            assert forall|k: int| 0 <= k < a.len() implies (#[trigger] a.map_values(f)[k]).len() == 4 by {
                lemma_be_len(a[k] as nat, 4);
            }
            lemma_flatten_uniform(a.map_values(f), 4);
            assert(count <= (bytes@.len() - pos) / 4) by (nonlinear_arith)
                requires
                    4 * count <= bytes@.len() - pos;
        }
    }
    if count > (bytes.len() - pos) / 4 {
        return Err(NbtError::UnexpectedEndOfInput);
    }
    let mut items: Vec<u32> = Vec::with_capacity(count);
    let mut p = pos;
    let mut i: usize = 0;
    proof {
        assert forall|a: Seq<u32>| a.len() == count && #[trigger] at(bytes@, pos as int, u32s_bytes(a)) implies items@
            == a.take(0) && p == pos + a.map_values(f).take(0).flatten().len() by {
            assert(a.map_values(f).take(0) =~= Seq::<Seq<u8>>::empty());
            assert(items@ =~= a.take(0));
        }
    }
    while i < count
        invariant
            0 <= i <= count,
            count <= (bytes@.len() - pos) / 4,
            p == pos + i * 4,
            pos <= bytes@.len(),
            items@.len() == i,
            f == |v: u32| u32_bytes(v),
            forall|a: Seq<u32>|
                a.len() == count && #[trigger] at(bytes@, pos as int, u32s_bytes(a)) ==> items@ == a.take(i as int)
                    && p == pos + a.map_values(f).take(i as int).flatten().len(),
        decreases count - i,
    {
        proof {
            assert(p + 4 <= bytes@.len()) by (nonlinear_arith)
                requires
                    p == pos + i * 4,
                    i < count,
                    count <= (bytes@.len() - pos) / 4,
                    pos <= bytes@.len();
            assert forall|a: Seq<u32>| a.len() == count && #[trigger] at(bytes@, pos as int, u32s_bytes(a)) implies at(
                bytes@,
                p as int,
                be(a[i as int] as nat, 4),
            ) && (a[i as int] as nat) < pow256(4) by {
                reveal_with_fuel(pow256, 9);
                lemma_at_chunk(bytes@, pos as int, a.map_values(f), i as int);
                assert(a.map_values(f)[i as int] == f(a[i as int]));
            }
        }
        let (v, next) = read_be(bytes, p, 4)?;
        let ghost before = items@;
        items.push(v as u32);
        proof {
            assert forall|a: Seq<u32>| a.len() == count && #[trigger] at(bytes@, pos as int, u32s_bytes(a)) implies items@
                == a.take(i + 1) && next == pos + a.map_values(f).take(i + 1).flatten().len() by {
                let x = a[i as int];
                assert(v as nat == (x as nat));
                assert((v as u32) == x) by (bit_vector)
                    requires
                        v == x as u64;
                assert(items@ =~= a.take(i + 1));
                lemma_flatten_take(a.map_values(f), i as int);
                lemma_be_len(a[i as int] as nat, 4);
            }
        }
        p = next;
        i = i + 1;
    }
    proof {
        assert forall|a: Seq<u32>| a.len() == count && #[trigger] at(bytes@, pos as int, u32s_bytes(a)) implies items@
            == a && p == pos + u32s_bytes(a).len() by {
            assert(a.take(count as int) =~= a);
            assert(a.map_values(f).take(count as int) =~= a.map_values(f));
        }
    }
    Ok((items, p))
}

fn read_u64s(bytes: &[u8], pos: usize, count: usize) -> (r: Result<(Vec<u64>, usize), NbtError>)
    requires
        pos <= bytes@.len(),
    ensures
        r matches Ok((v, end)) ==> v@.len() == count && pos <= end <= bytes@.len(),
        r matches Err(e) ==> e == NbtError::UnexpectedEndOfInput,
        forall|a: Seq<u64>|
            a.len() == count && #[trigger] at(bytes@, pos as int, u64s_bytes(a)) ==> (r matches Ok(
                (v, end),
            ) && v@ == a && end == pos + u64s_bytes(a).len()),
{
    let ghost f = |v: u64| u64_bytes(v);
    proof {
        reveal_with_fuel(pow256, 9);
        assert forall|a: Seq<u64>| a.len() == count && #[trigger] at(bytes@, pos as int, u64s_bytes(a)) implies count
            <= (bytes@.len() - pos) / 8 by {
            assert forall|k: int| 0 <= k < a.len() implies (#[trigger] a.map_values(f)[k]).len() == 8 by {
                lemma_be_len(a[k] as nat, 8);
            }
            lemma_flatten_uniform(a.map_values(f), 8);
            assert(count <= (bytes@.len() - pos) / 8) by (nonlinear_arith)
                requires
                    8 * count <= bytes@.len() - pos;
        }
    }
    if count > (bytes.len() - pos) / 8 {
        return Err(NbtError::UnexpectedEndOfInput);
    }
    let mut items: Vec<u64> = Vec::with_capacity(count);
    let mut p = pos;
    let mut i: usize = 0;
    proof {
        assert forall|a: Seq<u64>| a.len() == count && #[trigger] at(bytes@, pos as int, u64s_bytes(a)) implies items@
            == a.take(0) && p == pos + a.map_values(f).take(0).flatten().len() by {
            assert(a.map_values(f).take(0) =~= Seq::<Seq<u8>>::empty());
            assert(items@ =~= a.take(0));
        }
    }
    while i < count
        invariant
            0 <= i <= count,
            count <= (bytes@.len() - pos) / 8,
            p == pos + i * 8,
            pos <= bytes@.len(),
            items@.len() == i,
            f == |v: u64| u64_bytes(v),
            forall|a: Seq<u64>|
                a.len() == count && #[trigger] at(bytes@, pos as int, u64s_bytes(a)) ==> items@ == a.take(i as int)
                    && p == pos + a.map_values(f).take(i as int).flatten().len(),
        decreases count - i,
    {
        proof {
            assert(p + 8 <= bytes@.len()) by (nonlinear_arith)
                requires
                    p == pos + i * 8,
                    i < count,
                    count <= (bytes@.len() - pos) / 8,
                    pos <= bytes@.len();
            assert forall|a: Seq<u64>| a.len() == count && #[trigger] at(bytes@, pos as int, u64s_bytes(a)) implies at(
                bytes@,
                p as int,
                be(a[i as int] as nat, 8),
            ) && (a[i as int] as nat) < pow256(8) by {
                reveal_with_fuel(pow256, 9);
                lemma_at_chunk(bytes@, pos as int, a.map_values(f), i as int);
                assert(a.map_values(f)[i as int] == f(a[i as int]));
            }
        }
        let (v, next) = read_be(bytes, p, 8)?;
        let ghost before = items@;
        items.push(v);
        proof {
            assert forall|a: Seq<u64>| a.len() == count && #[trigger] at(bytes@, pos as int, u64s_bytes(a)) implies items@
                == a.take(i + 1) && next == pos + a.map_values(f).take(i + 1).flatten().len() by {
                let x = a[i as int];
                assert(v as nat == (x as nat));
                assert(v == x) by (bit_vector)
                    requires
                        v == x;
                assert(items@ =~= a.take(i + 1));
                lemma_flatten_take(a.map_values(f), i as int);
                lemma_be_len(a[i as int] as nat, 8);
            }
        }
        p = next;
        i = i + 1;
    }
    proof {
        assert forall|a: Seq<u64>| a.len() == count && #[trigger] at(bytes@, pos as int, u64s_bytes(a)) implies items@
            == a && p == pos + u64s_bytes(a).len() by {
            assert(a.take(count as int) =~= a);
            assert(a.map_values(f).take(count as int) =~= a.map_values(f));
        }
    }
    Ok((items, p))
}

/// Read a sequence of `count` strings.
fn read_strings(bytes: &[u8], pos: usize, count: usize) -> (r: Result<(Vec<String>, usize), NbtError>)
    requires
        pos <= bytes@.len(),
    ensures
        r matches Ok((v, end)) ==> v@.len() == count && pos <= end <= bytes@.len(),
        r matches Err(e) ==> !(e is UnknownTypeId),
        forall|a: Seq<String>|
            a.len() == count && (forall|k: int| 0 <= k < a.len() ==> #[trigger] str_fits(a[k]@)) && #[trigger] at(
                bytes@,
                pos as int,
                strings_bytes(a),
            ) ==> (r matches Ok((v, end)) && (forall|k: int| 0 <= k < count ==> #[trigger] v@[k]@ == a[k]@) && end
                == pos + strings_bytes(a).len()),
{
    let ghost f = |v: String| str_bytes(v@);
    proof {
        assert forall|a: Seq<String>|
            a.len() == count && (forall|k: int| 0 <= k < a.len() ==> #[trigger] str_fits(a[k]@)) && #[trigger] at(
                bytes@,
                pos as int,
                strings_bytes(a),
            ) implies count <= (bytes@.len() - pos) / 2 by {
            assert forall|k: int| 0 <= k < a.len() implies (#[trigger] a.map_values(f)[k]).len() >= 2 by {
                lemma_be_len(a[k]@.len(), 2);
            }
            lemma_flatten_min(a.map_values(f), 2);
            assert(count <= (bytes@.len() - pos) / 2) by (nonlinear_arith)
                requires
                    2 * count <= bytes@.len() - pos;
        }
    }
    if count > (bytes.len() - pos) / 2 {
        return Err(NbtError::UnexpectedEndOfInput);
    }
    let mut items: Vec<String> = Vec::with_capacity(count);
    let mut p = pos;
    let mut i: usize = 0;
    proof {
        assert forall|a: Seq<String>|
            a.len() == count && (forall|k: int| 0 <= k < a.len() ==> #[trigger] str_fits(a[k]@)) && #[trigger] at(
                bytes@,
                pos as int,
                strings_bytes(a),
            ) implies p == pos + a.map_values(f).take(0).flatten().len() by {
            assert(a.map_values(f).take(0) =~= Seq::<Seq<u8>>::empty());
        }
    }
    while i < count
        invariant
            0 <= i <= count,
            pos <= p <= bytes@.len(),
            items@.len() == i,
            f == |v: String| str_bytes(v@),
            forall|a: Seq<String>|
                a.len() == count && (forall|k: int| 0 <= k < a.len() ==> #[trigger] str_fits(a[k]@)) && #[trigger] at(
                    bytes@,
                    pos as int,
                    strings_bytes(a),
                ) ==> (forall|k: int| 0 <= k < i ==> #[trigger] items@[k]@ == a[k]@) && p == pos + a.map_values(
                    f,
                ).take(i as int).flatten().len(),
        decreases count - i,
    {
        proof {
            assert forall|a: Seq<String>|
                a.len() == count && (forall|k: int| 0 <= k < a.len() ==> #[trigger] str_fits(a[k]@)) && #[trigger] at(
                    bytes@,
                    pos as int,
                    strings_bytes(a),
                ) implies at(bytes@, p as int, str_bytes(a[i as int]@)) && str_fits(a[i as int]@) by {
                lemma_at_chunk(bytes@, pos as int, a.map_values(f), i as int);
                assert(a.map_values(f)[i as int] == f(a[i as int]));
            }
        }
        let (v, next) = read_string(bytes, p)?;
        let ghost before = items@;
        items.push(v);
        proof {
            assert forall|a: Seq<String>|
                a.len() == count && (forall|k: int| 0 <= k < a.len() ==> #[trigger] str_fits(a[k]@)) && #[trigger] at(
                    bytes@,
                    pos as int,
                    strings_bytes(a),
                ) implies (forall|k: int| 0 <= k < i + 1 ==> #[trigger] items@[k]@ == a[k]@) && next == pos
                + a.map_values(f).take(i + 1).flatten().len() by {
                assert(items@[i as int] == v);
                assert forall|k: int| 0 <= k < i + 1 implies #[trigger] items@[k]@ == a[k]@ by {
                    if k < i {
                        assert(items@[k] == before[k]);
                    }
                }
                lemma_flatten_take(a.map_values(f), i as int);
                assert(a.map_values(f)[i as int] == f(a[i as int]));
            }
        }
        p = next;
        i = i + 1;
    }
    proof {
        assert forall|a: Seq<String>|
            a.len() == count && (forall|k: int| 0 <= k < a.len() ==> #[trigger] str_fits(a[k]@)) && #[trigger] at(
                bytes@,
                pos as int,
                strings_bytes(a),
            ) implies p == pos + strings_bytes(a).len() by {
            assert(a.map_values(f).take(count as int) =~= a.map_values(f));
        }
    }
    Ok((items, p))
}

/// Read a byte array: a length, then that many bytes.
fn read_byte_array(bytes: &[u8], pos: usize) -> (r: Result<(Vec<u8>, usize), NbtError>)
    ensures
        pos + 4 <= bytes@.len() && bytes@[pos as int] >= 128 ==> (r matches Err(e) && e is NegativeOrExcessiveLength),
        forall|a: Seq<u8>|
            len_fits(a.len()) && #[trigger] at(bytes@, pos as int, byte_array_bytes(a)) ==> (r matches Ok(
                (v, end),
            ) && v@ == a && end == pos + byte_array_bytes(a).len()),
        r matches Err(e) ==> !(e is UnknownTypeId),
        r matches Ok((v, end)) ==> pos <= end <= bytes@.len() && bytes@.subrange(pos as int, end as int)
            == byte_array_bytes(v@),
{
    proof {
        assert forall|a: Seq<u8>| len_fits(a.len()) && #[trigger] at(bytes@, pos as int, byte_array_bytes(a)) implies at(
            bytes@,
            pos as int,
            be(a.len(), 4),
        ) && at(bytes@, pos + 4, a) by {
            lemma_at_split(bytes@, pos as int, be(a.len(), 4), a);
            lemma_be_len(a.len(), 4);
        }
    }
    let (n, p) = read_len(bytes, pos)?;
    if n > bytes.len() - p {
        return Err(NbtError::UnexpectedEndOfInput);
    }
    let v = vstd::slice::slice_to_vec(&bytes[p..p + n]);
    assert(bytes@.subrange(pos as int, (p + n) as int) =~= bytes@.subrange(pos as int, p as int)
        + bytes@.subrange(p as int, (p + n) as int));
    proof {
        assert forall|a: Seq<u8>| len_fits(a.len()) && #[trigger] at(bytes@, pos as int, byte_array_bytes(a)) implies v@
            == a && p + n == pos + byte_array_bytes(a).len() by {
            lemma_be_len(a.len(), 4);
            assert(v@ =~= bytes@.subrange(p as int, (p + n) as int));
        }
    }
    Ok((v, p + n))
}

/// Read an int array: a length, then that many four-byte ints.
fn read_int_array(bytes: &[u8], pos: usize) -> (r: Result<(Vec<i32>, usize), NbtError>)
    ensures
        pos + 4 <= bytes@.len() && bytes@[pos as int] >= 128 ==> (r matches Err(e) && e is NegativeOrExcessiveLength),
        forall|a: Seq<i32>|
            len_fits(a.len()) && #[trigger] at(bytes@, pos as int, int_array_bytes(a)) ==> (r matches Ok(
                (v, end),
            ) && v@ == a && end == pos + int_array_bytes(a).len()),
        r matches Err(e) ==> !(e is UnknownTypeId),
        r matches Ok((v, end)) ==> pos <= end <= bytes@.len(),
{
    proof {
        assert forall|a: Seq<i32>| len_fits(a.len()) && #[trigger] at(bytes@, pos as int, int_array_bytes(a)) implies at(
            bytes@,
            pos as int,
            be(a.len(), 4),
        ) && at(bytes@, pos + 4, i32s_bytes(a)) by {
            lemma_at_split(bytes@, pos as int, be(a.len(), 4), i32s_bytes(a));
            lemma_be_len(a.len(), 4);
        }
    }
    let (n, p) = read_len(bytes, pos)?;
    read_i32s(bytes, p, n)
}

/// Read a long array: a length, then that many eight-byte longs.
fn read_long_array(bytes: &[u8], pos: usize) -> (r: Result<(Vec<i64>, usize), NbtError>)
    ensures
        pos + 4 <= bytes@.len() && bytes@[pos as int] >= 128 ==> (r matches Err(e) && e is NegativeOrExcessiveLength),
        forall|a: Seq<i64>|
            len_fits(a.len()) && #[trigger] at(bytes@, pos as int, long_array_bytes(a)) ==> (r matches Ok(
                (v, end),
            ) && v@ == a && end == pos + long_array_bytes(a).len()),
        r matches Err(e) ==> !(e is UnknownTypeId),
        r matches Ok((v, end)) ==> pos <= end <= bytes@.len(),
{
    proof {
        assert forall|a: Seq<i64>| len_fits(a.len()) && #[trigger] at(bytes@, pos as int, long_array_bytes(a)) implies at(
            bytes@,
            pos as int,
            be(a.len(), 4),
        ) && at(bytes@, pos + 4, i64s_bytes(a)) by {
            lemma_at_split(bytes@, pos as int, be(a.len(), 4), i64s_bytes(a));
            lemma_be_len(a.len(), 4);
        }
    }
    let (n, p) = read_len(bytes, pos)?;
    read_i64s(bytes, p, n)
}

fn read_byte_arrays(bytes: &[u8], pos: usize, count: usize) -> (r: Result<(Vec<Vec<u8>>, usize), NbtError>)
    requires
        pos <= bytes@.len(),
    ensures
        r matches Ok((v, end)) ==> v@.len() == count && pos <= end <= bytes@.len(),
        r matches Err(e) ==> !(e is UnknownTypeId),
        forall|a: Seq<Vec<u8>>|
            a.len() == count && (forall|k: int| 0 <= k < a.len() ==> #[trigger] len_fits(a[k]@.len())) && #[trigger] at(
                bytes@,
                pos as int,
                byte_arrays_bytes(a),
            ) ==> (r matches Ok((v, end)) && (forall|k: int| 0 <= k < count ==> #[trigger] v@[k]@ == a[k]@) && end
                == pos + byte_arrays_bytes(a).len()),
{
    let ghost f = |v: Vec<u8>| byte_array_bytes(v@);
    proof {
        assert forall|a: Seq<Vec<u8>>|
            a.len() == count && (forall|k: int| 0 <= k < a.len() ==> #[trigger] len_fits(a[k]@.len())) && #[trigger] at(
                bytes@,
                pos as int,
                byte_arrays_bytes(a),
            ) implies count <= (bytes@.len() - pos) / 4 by {
            assert forall|k: int| 0 <= k < a.len() implies (#[trigger] a.map_values(f)[k]).len() >= 4 by {
                lemma_be_len(a[k]@.len(), 4);
            }
            lemma_flatten_min(a.map_values(f), 4);
            assert(count <= (bytes@.len() - pos) / 4) by (nonlinear_arith)
                requires
                    4 * count <= bytes@.len() - pos;
        }
    }
    if count > (bytes.len() - pos) / 4 {
        return Err(NbtError::UnexpectedEndOfInput);
    }
    let mut items: Vec<Vec<u8>> = Vec::with_capacity(count);
    let mut p = pos;
    let mut i: usize = 0;
    proof {
        assert forall|a: Seq<Vec<u8>>|
            a.len() == count && (forall|k: int| 0 <= k < a.len() ==> #[trigger] len_fits(a[k]@.len())) && #[trigger] at(
                bytes@,
                pos as int,
                byte_arrays_bytes(a),
            ) implies p == pos + a.map_values(f).take(0).flatten().len() by {
            assert(a.map_values(f).take(0) =~= Seq::<Seq<u8>>::empty());
        }
    }
    while i < count
        invariant
            0 <= i <= count,
            pos <= p <= bytes@.len(),
            items@.len() == i,
            f == |v: Vec<u8>| byte_array_bytes(v@),
            forall|a: Seq<Vec<u8>>|
                a.len() == count && (forall|k: int| 0 <= k < a.len() ==> #[trigger] len_fits(a[k]@.len())) && #[trigger] at(
                    bytes@,
                    pos as int,
                    byte_arrays_bytes(a),
                ) ==> (forall|k: int| 0 <= k < i ==> #[trigger] items@[k]@ == a[k]@) && p == pos + a.map_values(
                    f,
                ).take(i as int).flatten().len(),
        decreases count - i,
    {
        proof {
            assert forall|a: Seq<Vec<u8>>|
                a.len() == count && (forall|k: int| 0 <= k < a.len() ==> #[trigger] len_fits(a[k]@.len())) && #[trigger] at(
                    bytes@,
                    pos as int,
                    byte_arrays_bytes(a),
                ) implies at(bytes@, p as int, byte_array_bytes(a[i as int]@)) && len_fits(a[i as int]@.len()) by {
                lemma_at_chunk(bytes@, pos as int, a.map_values(f), i as int);
                assert(a.map_values(f)[i as int] == f(a[i as int]));
            }
        }
        let (v, next) = read_byte_array(bytes, p)?;
        let ghost before = items@;
        items.push(v);
        proof {
            assert forall|a: Seq<Vec<u8>>|
                a.len() == count && (forall|k: int| 0 <= k < a.len() ==> #[trigger] len_fits(a[k]@.len())) && #[trigger] at(
                    bytes@,
                    pos as int,
                    byte_arrays_bytes(a),
                ) implies (forall|k: int| 0 <= k < i + 1 ==> #[trigger] items@[k]@ == a[k]@) && next == pos
                + a.map_values(f).take(i + 1).flatten().len() by {
                assert(items@[i as int] == v);
                assert forall|k: int| 0 <= k < i + 1 implies #[trigger] items@[k]@ == a[k]@ by {
                    if k < i {
                        assert(items@[k] == before[k]);
                    }
                }
                lemma_flatten_take(a.map_values(f), i as int);
                assert(a.map_values(f)[i as int] == f(a[i as int]));
            }
        }
        p = next;
        i = i + 1;
    }
    proof {
        assert forall|a: Seq<Vec<u8>>|
            a.len() == count && (forall|k: int| 0 <= k < a.len() ==> #[trigger] len_fits(a[k]@.len())) && #[trigger] at(
                bytes@,
                pos as int,
                byte_arrays_bytes(a),
            ) implies p == pos + byte_arrays_bytes(a).len() by {
            assert(a.map_values(f).take(count as int) =~= a.map_values(f));
        }
    }
    Ok((items, p))
}

fn read_int_arrays(bytes: &[u8], pos: usize, count: usize) -> (r: Result<(Vec<Vec<i32>>, usize), NbtError>)
    requires
        pos <= bytes@.len(),
    ensures
        r matches Ok((v, end)) ==> v@.len() == count && pos <= end <= bytes@.len(),
        r matches Err(e) ==> !(e is UnknownTypeId),
        forall|a: Seq<Vec<i32>>|
            a.len() == count && (forall|k: int| 0 <= k < a.len() ==> #[trigger] len_fits(a[k]@.len())) && #[trigger] at(
                bytes@,
                pos as int,
                int_arrays_bytes(a),
            ) ==> (r matches Ok((v, end)) && (forall|k: int| 0 <= k < count ==> #[trigger] v@[k]@ == a[k]@) && end
                == pos + int_arrays_bytes(a).len()),
{
    let ghost f = |v: Vec<i32>| int_array_bytes(v@);
    proof {
        assert forall|a: Seq<Vec<i32>>|
            a.len() == count && (forall|k: int| 0 <= k < a.len() ==> #[trigger] len_fits(a[k]@.len())) && #[trigger] at(
                bytes@,
                pos as int,
                int_arrays_bytes(a),
            ) implies count <= (bytes@.len() - pos) / 4 by {
            assert forall|k: int| 0 <= k < a.len() implies (#[trigger] a.map_values(f)[k]).len() >= 4 by {
                lemma_be_len(a[k]@.len(), 4);
            }
            lemma_flatten_min(a.map_values(f), 4);
            assert(count <= (bytes@.len() - pos) / 4) by (nonlinear_arith)
                requires
                    4 * count <= bytes@.len() - pos;
        }
    }
    if count > (bytes.len() - pos) / 4 {
        return Err(NbtError::UnexpectedEndOfInput);
    }
    let mut items: Vec<Vec<i32>> = Vec::with_capacity(count);
    let mut p = pos;
    let mut i: usize = 0;
    proof {
        assert forall|a: Seq<Vec<i32>>|
            a.len() == count && (forall|k: int| 0 <= k < a.len() ==> #[trigger] len_fits(a[k]@.len())) && #[trigger] at(
                bytes@,
                pos as int,
                int_arrays_bytes(a),
            ) implies p == pos + a.map_values(f).take(0).flatten().len() by {
            assert(a.map_values(f).take(0) =~= Seq::<Seq<u8>>::empty());
        }
    }
    while i < count
        invariant
            0 <= i <= count,
            pos <= p <= bytes@.len(),
            items@.len() == i,
            f == |v: Vec<i32>| int_array_bytes(v@),
            forall|a: Seq<Vec<i32>>|
                a.len() == count && (forall|k: int| 0 <= k < a.len() ==> #[trigger] len_fits(a[k]@.len())) && #[trigger] at(
                    bytes@,
                    pos as int,
                    int_arrays_bytes(a),
                ) ==> (forall|k: int| 0 <= k < i ==> #[trigger] items@[k]@ == a[k]@) && p == pos + a.map_values(
                    f,
                ).take(i as int).flatten().len(),
        decreases count - i,
    {
        proof {
            assert forall|a: Seq<Vec<i32>>|
                a.len() == count && (forall|k: int| 0 <= k < a.len() ==> #[trigger] len_fits(a[k]@.len())) && #[trigger] at(
                    bytes@,
                    pos as int,
                    int_arrays_bytes(a),
                ) implies at(bytes@, p as int, int_array_bytes(a[i as int]@)) && len_fits(a[i as int]@.len()) by {
                lemma_at_chunk(bytes@, pos as int, a.map_values(f), i as int);
                assert(a.map_values(f)[i as int] == f(a[i as int]));
            }
        }
        let (v, next) = read_int_array(bytes, p)?;
        let ghost before = items@;
        items.push(v);
        proof {
            assert forall|a: Seq<Vec<i32>>|
                a.len() == count && (forall|k: int| 0 <= k < a.len() ==> #[trigger] len_fits(a[k]@.len())) && #[trigger] at(
                    bytes@,
                    pos as int,
                    int_arrays_bytes(a),
                ) implies (forall|k: int| 0 <= k < i + 1 ==> #[trigger] items@[k]@ == a[k]@) && next == pos
                + a.map_values(f).take(i + 1).flatten().len() by {
                assert(items@[i as int] == v);
                assert forall|k: int| 0 <= k < i + 1 implies #[trigger] items@[k]@ == a[k]@ by {
                    if k < i {
                        assert(items@[k] == before[k]);
                    }
                }
                lemma_flatten_take(a.map_values(f), i as int);
                assert(a.map_values(f)[i as int] == f(a[i as int]));
            }
        }
        p = next;
        i = i + 1;
    }
    proof {
        assert forall|a: Seq<Vec<i32>>|
            a.len() == count && (forall|k: int| 0 <= k < a.len() ==> #[trigger] len_fits(a[k]@.len())) && #[trigger] at(
                bytes@,
                pos as int,
                int_arrays_bytes(a),
            ) implies p == pos + int_arrays_bytes(a).len() by {
            assert(a.map_values(f).take(count as int) =~= a.map_values(f));
        }
    }
    Ok((items, p))
}

fn read_long_arrays(bytes: &[u8], pos: usize, count: usize) -> (r: Result<(Vec<Vec<i64>>, usize), NbtError>)
    requires
        pos <= bytes@.len(),
    ensures
        r matches Ok((v, end)) ==> v@.len() == count && pos <= end <= bytes@.len(),
        r matches Err(e) ==> !(e is UnknownTypeId),
        forall|a: Seq<Vec<i64>>|
            a.len() == count && (forall|k: int| 0 <= k < a.len() ==> #[trigger] len_fits(a[k]@.len())) && #[trigger] at(
                bytes@,
                pos as int,
                long_arrays_bytes(a),
            ) ==> (r matches Ok((v, end)) && (forall|k: int| 0 <= k < count ==> #[trigger] v@[k]@ == a[k]@) && end
                == pos + long_arrays_bytes(a).len()),
{
    let ghost f = |v: Vec<i64>| long_array_bytes(v@);
    proof {
        assert forall|a: Seq<Vec<i64>>|
            a.len() == count && (forall|k: int| 0 <= k < a.len() ==> #[trigger] len_fits(a[k]@.len())) && #[trigger] at(
                bytes@,
                pos as int,
                long_arrays_bytes(a),
            ) implies count <= (bytes@.len() - pos) / 4 by {
            assert forall|k: int| 0 <= k < a.len() implies (#[trigger] a.map_values(f)[k]).len() >= 4 by {
                lemma_be_len(a[k]@.len(), 4);
            }
            lemma_flatten_min(a.map_values(f), 4);
            assert(count <= (bytes@.len() - pos) / 4) by (nonlinear_arith)
                requires
                    4 * count <= bytes@.len() - pos;
        }
    }
    if count > (bytes.len() - pos) / 4 {
        return Err(NbtError::UnexpectedEndOfInput);
    }
    let mut items: Vec<Vec<i64>> = Vec::with_capacity(count);
    let mut p = pos;
    let mut i: usize = 0;
    proof {
        assert forall|a: Seq<Vec<i64>>|
            a.len() == count && (forall|k: int| 0 <= k < a.len() ==> #[trigger] len_fits(a[k]@.len())) && #[trigger] at(
                bytes@,
                pos as int,
                long_arrays_bytes(a),
            ) implies p == pos + a.map_values(f).take(0).flatten().len() by {
            assert(a.map_values(f).take(0) =~= Seq::<Seq<u8>>::empty());
        }
    }
    while i < count
        invariant
            0 <= i <= count,
            pos <= p <= bytes@.len(),
            items@.len() == i,
            f == |v: Vec<i64>| long_array_bytes(v@),
            forall|a: Seq<Vec<i64>>|
                a.len() == count && (forall|k: int| 0 <= k < a.len() ==> #[trigger] len_fits(a[k]@.len())) && #[trigger] at(
                    bytes@,
                    pos as int,
                    long_arrays_bytes(a),
                ) ==> (forall|k: int| 0 <= k < i ==> #[trigger] items@[k]@ == a[k]@) && p == pos + a.map_values(
                    f,
                ).take(i as int).flatten().len(),
        decreases count - i,
    {
        proof {
            assert forall|a: Seq<Vec<i64>>|
                a.len() == count && (forall|k: int| 0 <= k < a.len() ==> #[trigger] len_fits(a[k]@.len())) && #[trigger] at(
                    bytes@,
                    pos as int,
                    long_arrays_bytes(a),
                ) implies at(bytes@, p as int, long_array_bytes(a[i as int]@)) && len_fits(a[i as int]@.len()) by {
                lemma_at_chunk(bytes@, pos as int, a.map_values(f), i as int);
                assert(a.map_values(f)[i as int] == f(a[i as int]));
            }
        }
        let (v, next) = read_long_array(bytes, p)?;
        let ghost before = items@;
        items.push(v);
        proof {
            assert forall|a: Seq<Vec<i64>>|
                a.len() == count && (forall|k: int| 0 <= k < a.len() ==> #[trigger] len_fits(a[k]@.len())) && #[trigger] at(
                    bytes@,
                    pos as int,
                    long_arrays_bytes(a),
                ) implies (forall|k: int| 0 <= k < i + 1 ==> #[trigger] items@[k]@ == a[k]@) && next == pos
                + a.map_values(f).take(i + 1).flatten().len() by {
                assert(items@[i as int] == v);
                assert forall|k: int| 0 <= k < i + 1 implies #[trigger] items@[k]@ == a[k]@ by {
                    if k < i {
                        assert(items@[k] == before[k]);
                    }
                }
                lemma_flatten_take(a.map_values(f), i as int);
                assert(a.map_values(f)[i as int] == f(a[i as int]));
            }
        }
        p = next;
        i = i + 1;
    }
    proof {
        assert forall|a: Seq<Vec<i64>>|
            a.len() == count && (forall|k: int| 0 <= k < a.len() ==> #[trigger] len_fits(a[k]@.len())) && #[trigger] at(
                bytes@,
                pos as int,
                long_arrays_bytes(a),
            ) implies p == pos + long_arrays_bytes(a).len() by {
            assert(a.map_values(f).take(count as int) =~= a.map_values(f));
        }
    }
    Ok((items, p))
}

/// Read the payload of a value of type `id`, inside `depth` lists and compounds.
fn read_payload(bytes: &[u8], pos: usize, id: u8, depth: usize) -> (r: Result<(Tag, usize), NbtError>)
    requires
        depth <= MAX_DEPTH,
        pos <= bytes@.len(),
    ensures
        r matches Ok((t, end)) ==> t.spec_id() == id && pos <= end <= bytes@.len(),
        id > 12 ==> r == Err::<(Tag, usize), NbtError>(NbtError::UnknownTypeId(id)),
        r matches Err(NbtError::UnknownTypeId(b)) ==> b > 12,
        id == STRING_ID && pos + 2 <= bytes@.len() && declared_len(bytes@, pos as int) > bytes@.len()
            - pos - 2 ==> r == Err::<(Tag, usize), NbtError>(NbtError::UnexpectedEndOfInput),
        id == STRING_ID && !string_cut(bytes@, pos as int) && !string_ok(bytes@, pos as int) ==> r == Err::<
            (Tag, usize),
            NbtError,
        >(NbtError::InvalidStringEncoding),
        (id == BYTE_ARRAY_ID || id == INT_ARRAY_ID || id == LONG_ARRAY_ID) && pos + 4 <= bytes@.len()
            && bytes@[pos as int] >= 128 ==> (r matches Err(e) && e is NegativeOrExcessiveLength),
        forall|t: Tag|
            #[trigger] at(bytes@, pos as int, payload(t)) && t.spec_id() == id && encodable(t) && canonical(t, (MAX_DEPTH - depth) as nat) ==> (r matches Ok((t2, end)) && tag_eq(t2, t) && end == pos + payload(t).len()),
    decreases MAX_DEPTH - depth, 0nat,
{
    if id > 12 {
        return Err(NbtError::UnknownTypeId(id));
    }
    if (id == LIST_ID || id == COMPOUND_ID) && depth >= MAX_DEPTH {
        return Err(NbtError::RecursionLimitExceeded);
    }
    if id == END_ID {
        Ok((Tag::End, pos))
    } else if id == BYTE_ID {
        proof {
            reveal_with_fuel(pow256, 9);
            assert forall|t: Tag| #[trigger] at(bytes@, pos as int, payload(t)) && t.spec_id() == id && encodable(t) && canonical(t, (MAX_DEPTH - depth) as nat) implies at(
                bytes@,
                pos as int,
                be(t->Byte_0 as u8 as nat, 1),
            ) && (t->Byte_0 as u8 as nat) < pow256(1) by {}
        }
        let (v, p) = read_be(bytes, pos, 1)?;
        proof {
            assert forall|t: Tag| #[trigger] at(bytes@, pos as int, payload(t)) && t.spec_id() == id && encodable(t) && canonical(t, (MAX_DEPTH - depth) as nat) implies v as u8 as i8 == t->Byte_0 by {
                let x = t->Byte_0;
                assert(v as nat == (x as u8 as nat));
                assert((v as u8 as i8) == x) by (bit_vector)
                    requires
                        v == x as u8 as u64;
                lemma_be_len(x as u8 as nat, 1);
            }
        }
        Ok((Tag::Byte(v as u8 as i8), p))
    } else if id == SHORT_ID {
        proof {
            reveal_with_fuel(pow256, 9);
            assert forall|t: Tag| #[trigger] at(bytes@, pos as int, payload(t)) && t.spec_id() == id && encodable(t) && canonical(t, (MAX_DEPTH - depth) as nat) implies at(
                bytes@,
                pos as int,
                be(t->Short_0 as u16 as nat, 2),
            ) && (t->Short_0 as u16 as nat) < pow256(2) by {}
        }
        let (v, p) = read_be(bytes, pos, 2)?;
        proof {
            assert forall|t: Tag| #[trigger] at(bytes@, pos as int, payload(t)) && t.spec_id() == id && encodable(t) && canonical(t, (MAX_DEPTH - depth) as nat) implies v as u16 as i16 == t->Short_0 by {
                let x = t->Short_0;
                assert(v as nat == (x as u16 as nat));
                assert((v as u16 as i16) == x) by (bit_vector)
                    requires
                        v == x as u16 as u64;
                lemma_be_len(x as u16 as nat, 2);
            }
        }
        Ok((Tag::Short(v as u16 as i16), p))
    } else if id == INT_ID {
        proof {
            reveal_with_fuel(pow256, 9);
            assert forall|t: Tag| #[trigger] at(bytes@, pos as int, payload(t)) && t.spec_id() == id && encodable(t) && canonical(t, (MAX_DEPTH - depth) as nat) implies at(
                bytes@,
                pos as int,
                be(t->Int_0 as u32 as nat, 4),
            ) && (t->Int_0 as u32 as nat) < pow256(4) by {}
        }
        let (v, p) = read_be(bytes, pos, 4)?;
        proof {
            assert forall|t: Tag| #[trigger] at(bytes@, pos as int, payload(t)) && t.spec_id() == id && encodable(t) && canonical(t, (MAX_DEPTH - depth) as nat) implies v as u32 as i32 == t->Int_0 by {
                let x = t->Int_0;
                assert(v as nat == (x as u32 as nat));
                assert((v as u32 as i32) == x) by (bit_vector)
                    requires
                        v == x as u32 as u64;
                lemma_be_len(x as u32 as nat, 4);
            }
        }
        Ok((Tag::Int(v as u32 as i32), p))
    } else if id == LONG_ID {
        proof {
            reveal_with_fuel(pow256, 9);
            assert forall|t: Tag| #[trigger] at(bytes@, pos as int, payload(t)) && t.spec_id() == id && encodable(t) && canonical(t, (MAX_DEPTH - depth) as nat) implies at(
                bytes@,
                pos as int,
                be(t->Long_0 as u64 as nat, 8),
            ) && (t->Long_0 as u64 as nat) < pow256(8) by {}
        }
        let (v, p) = read_be(bytes, pos, 8)?;
        proof {
            assert forall|t: Tag| #[trigger] at(bytes@, pos as int, payload(t)) && t.spec_id() == id && encodable(t) && canonical(t, (MAX_DEPTH - depth) as nat) implies v as i64 == t->Long_0 by {
                let x = t->Long_0;
                assert(v as nat == (x as u64 as nat));
                assert((v as i64) == x) by (bit_vector)
                    requires
                        v == x as u64;
                lemma_be_len(x as u64 as nat, 8);
            }
        }
        Ok((Tag::Long(v as i64), p))
    } else if id == FLOAT_ID {
        proof {
            reveal_with_fuel(pow256, 9);
            assert forall|t: Tag| #[trigger] at(bytes@, pos as int, payload(t)) && t.spec_id() == id && encodable(t) && canonical(t, (MAX_DEPTH - depth) as nat) implies at(
                bytes@,
                pos as int,
                be(t->Float_0 as nat, 4),
            ) && (t->Float_0 as nat) < pow256(4) by {}
        }
        let (v, p) = read_be(bytes, pos, 4)?;
        proof {
            assert forall|t: Tag| #[trigger] at(bytes@, pos as int, payload(t)) && t.spec_id() == id && encodable(t) && canonical(t, (MAX_DEPTH - depth) as nat) implies v as u32 == t->Float_0 by {
                let x = t->Float_0;
                assert(v as nat == (x as nat));
                assert((v as u32) == x) by (bit_vector)
                    requires
                        v == x as u64;
                lemma_be_len(x as nat, 4);
            }
        }
        Ok((Tag::Float(v as u32), p))
    } else if id == DOUBLE_ID {
        proof {
            reveal_with_fuel(pow256, 9);
            assert forall|t: Tag| #[trigger] at(bytes@, pos as int, payload(t)) && t.spec_id() == id && encodable(t) && canonical(t, (MAX_DEPTH - depth) as nat) implies at(
                bytes@,
                pos as int,
                be(t->Double_0 as nat, 8),
            ) && (t->Double_0 as nat) < pow256(8) by {}
        }
        let (v, p) = read_be(bytes, pos, 8)?;
        proof {
            assert forall|t: Tag| #[trigger] at(bytes@, pos as int, payload(t)) && t.spec_id() == id && encodable(t) && canonical(t, (MAX_DEPTH - depth) as nat) implies v == t->Double_0 by {
                let x = t->Double_0;
                assert(v as nat == (x as nat));
                assert(v == x) by (bit_vector)
                    requires
                        v == x;
                lemma_be_len(x as nat, 8);
            }
        }
        Ok((Tag::Double(v), p))
    } else if id == BYTE_ARRAY_ID {
        proof {
            assert forall|t: Tag| #[trigger] at(bytes@, pos as int, payload(t)) && t.spec_id() == id && encodable(t) && canonical(t, (MAX_DEPTH - depth) as nat) implies t is ByteArray by {}
        }
        let (v, p) = read_byte_array(bytes, pos)?;
        Ok((Tag::ByteArray(v), p))
    } else if id == STRING_ID {
        proof {
            assert forall|t: Tag| #[trigger] at(bytes@, pos as int, payload(t)) && t.spec_id() == id && encodable(t) && canonical(t, (MAX_DEPTH - depth) as nat) implies t is String by {}
        }
        let (v, p) = read_string(bytes, pos)?;
        Ok((Tag::String(v), p))
    } else if id == LIST_ID {
        proof {
            assert forall|t: Tag| #[trigger] at(bytes@, pos as int, payload(t)) && t.spec_id() == id && encodable(t) && canonical(t, (MAX_DEPTH - depth) as nat) implies t is List && at(bytes@, pos as int, list_bytes(t->List_0)) by {}
        }
        let (v, p) = read_list(bytes, pos, depth + 1)?;
        Ok((Tag::List(v), p))
    } else if id == COMPOUND_ID {
        proof {
            assert forall|t: Tag| #[trigger] at(bytes@, pos as int, payload(t)) && t.spec_id() == id && encodable(t) && canonical(t, (MAX_DEPTH - depth) as nat) implies t is Compound && at(bytes@, pos as int, compound_bytes(t->Compound_0)) by {}
        }
        let (v, p) = read_compound(bytes, pos, depth + 1)?;
        Ok((Tag::Compound(v), p))
    } else if id == INT_ARRAY_ID {
        proof {
            assert forall|t: Tag| #[trigger] at(bytes@, pos as int, payload(t)) && t.spec_id() == id && encodable(t) && canonical(t, (MAX_DEPTH - depth) as nat) implies t is IntArray by {}
        }
        let (v, p) = read_int_array(bytes, pos)?;
        Ok((Tag::IntArray(v), p))
    } else {
        proof {
            assert forall|t: Tag| #[trigger] at(bytes@, pos as int, payload(t)) && t.spec_id() == id && encodable(t) && canonical(t, (MAX_DEPTH - depth) as nat) implies t is LongArray by {}
        }
        let (v, p) = read_long_array(bytes, pos)?;
        Ok((Tag::LongArray(v), p))
    }
}

/// Read a list: element type-ID, signed count, then the elements. A count
/// of zero or less gives the empty list and reads nothing more.
fn read_list(bytes: &[u8], pos: usize, depth: usize) -> (r: Result<(NbtList, usize), NbtError>)
    requires
        depth <= MAX_DEPTH,
        pos <= bytes@.len(),
    ensures
        r matches Ok((l, end)) ==> pos <= end <= bytes@.len(),
        r matches Ok((l, end)) ==> l is Empty || bytes@[pos as int] == l.spec_id(),
        r matches Err(NbtError::UnknownTypeId(b)) ==> b > 12,
        pos >= bytes@.len() ==> r == Err::<(NbtList, usize), NbtError>(NbtError::UnexpectedEndOfInput),
        pos < bytes@.len() && bytes@[pos as int] > 12 ==> r == Err::<(NbtList, usize), NbtError>(
            NbtError::UnknownTypeId(bytes@[pos as int]),
        ),
        forall|l: NbtList|
            #[trigger] at(bytes@, pos as int, list_bytes(l)) && list_encodable(l) && list_canonical(l, (MAX_DEPTH - depth) as nat) ==> (r matches Ok((l2, end)) && list_eq(l2, l) && end == pos + list_bytes(l).len()),
    decreases MAX_DEPTH - depth, 1nat,
{
    proof {
        reveal_with_fuel(pow256, 5);
        assert forall|l: NbtList| #[trigger] at(bytes@, pos as int, list_bytes(l)) && list_encodable(l) && list_canonical(l, (MAX_DEPTH - depth) as nat) implies pos < bytes@.len() && bytes@[pos as int] == l.spec_id()
            && at(bytes@, pos + 1, be(list_len(l), 4)) && at(bytes@, pos + 5, list_items(l)) && list_len(l) < pow256(4) by {
            lemma_at_split(bytes@, pos as int, seq![l.spec_id()] + be(list_len(l), 4), list_items(l));
            lemma_at_split(bytes@, pos as int, seq![l.spec_id()], be(list_len(l), 4));
            lemma_be_len(list_len(l), 4);
            assert(bytes@.subrange(pos as int, pos + 1)[0] == bytes@[pos as int]);
        }
    }
    let (id, p) = read_u8(bytes, pos)?;
    if id > 12 {
        return Err(NbtError::UnknownTypeId(id));
    }
    let (raw, p) = read_be(bytes, p, 4)?;
    let count = raw as u32 as i32;
    proof {
        assert forall|l: NbtList| #[trigger] at(bytes@, pos as int, list_bytes(l)) && list_encodable(l) && list_canonical(l, (MAX_DEPTH - depth) as nat) implies raw == list_len(l) && (count <= 0 <==> list_len(l) == 0)
            && (count > 0 ==> count as usize == raw) by {
            assert(raw == list_len(l));
            assert(raw <= 0x7fff_ffff ==> ((raw as u32 as i32) <= 0 <==> raw == 0) && ((raw as u32 as i32) > 0
                ==> (raw as u32 as i32) as usize == raw)) by (bit_vector);
        }
    }
    if count <= 0 {
        proof {
            assert forall|l: NbtList| #[trigger] at(bytes@, pos as int, list_bytes(l)) && list_encodable(l) && list_canonical(l, (MAX_DEPTH - depth) as nat) implies list_eq(NbtList::Empty, l) && p == pos + list_bytes(l).len() by {
                assert(list_items(NbtList::Empty) =~= seq![]);
                lemma_be_len(0, 4);
            }
        }
        return Ok((NbtList::Empty, p));
    }
    let count = count as usize;
    if id == END_ID {
        return Err(NbtError::NegativeOrExcessiveLength(count as i32));
    }
    let list = if id == BYTE_ID {
        proof {
            assert forall|l: NbtList| #[trigger] at(bytes@, pos as int, list_bytes(l)) && list_encodable(l) && list_canonical(l, (MAX_DEPTH - depth) as nat) implies l is Byte && at(bytes@, p as int, i8s_bytes(l->Byte_0@)) && l->Byte_0@.len() == count by {}
        }
        let (v, q) = read_i8s(bytes, p, count)?;
        proof {
            assert forall|l: NbtList| #[trigger] at(bytes@, pos as int, list_bytes(l)) && list_encodable(l) && list_canonical(l, (MAX_DEPTH - depth) as nat) implies list_eq(NbtList::Byte(v), l) && q == pos + list_bytes(l).len() by {
                lemma_be_len(list_len(l), 4);
            }
        }
        (NbtList::Byte(v), q)
    } else if id == SHORT_ID {
        proof {
            assert forall|l: NbtList| #[trigger] at(bytes@, pos as int, list_bytes(l)) && list_encodable(l) && list_canonical(l, (MAX_DEPTH - depth) as nat) implies l is Short && at(bytes@, p as int, i16s_bytes(l->Short_0@)) && l->Short_0@.len() == count by {}
        }
        let (v, q) = read_i16s(bytes, p, count)?;
        proof {
            assert forall|l: NbtList| #[trigger] at(bytes@, pos as int, list_bytes(l)) && list_encodable(l) && list_canonical(l, (MAX_DEPTH - depth) as nat) implies list_eq(NbtList::Short(v), l) && q == pos + list_bytes(l).len() by {
                lemma_be_len(list_len(l), 4);
            }
        }
        (NbtList::Short(v), q)
    } else if id == INT_ID {
        proof {
            assert forall|l: NbtList| #[trigger] at(bytes@, pos as int, list_bytes(l)) && list_encodable(l) && list_canonical(l, (MAX_DEPTH - depth) as nat) implies l is Int && at(bytes@, p as int, i32s_bytes(l->Int_0@)) && l->Int_0@.len() == count by {}
        }
        let (v, q) = read_i32s(bytes, p, count)?;
        proof {
            assert forall|l: NbtList| #[trigger] at(bytes@, pos as int, list_bytes(l)) && list_encodable(l) && list_canonical(l, (MAX_DEPTH - depth) as nat) implies list_eq(NbtList::Int(v), l) && q == pos + list_bytes(l).len() by {
                lemma_be_len(list_len(l), 4);
            }
        }
        (NbtList::Int(v), q)
    } else if id == LONG_ID {
        proof {
            assert forall|l: NbtList| #[trigger] at(bytes@, pos as int, list_bytes(l)) && list_encodable(l) && list_canonical(l, (MAX_DEPTH - depth) as nat) implies l is Long && at(bytes@, p as int, i64s_bytes(l->Long_0@)) && l->Long_0@.len() == count by {}
        }
        let (v, q) = read_i64s(bytes, p, count)?;
        proof {
            assert forall|l: NbtList| #[trigger] at(bytes@, pos as int, list_bytes(l)) && list_encodable(l) && list_canonical(l, (MAX_DEPTH - depth) as nat) implies list_eq(NbtList::Long(v), l) && q == pos + list_bytes(l).len() by {
                lemma_be_len(list_len(l), 4);
            }
        }
        (NbtList::Long(v), q)
    } else if id == FLOAT_ID {
        proof {
            assert forall|l: NbtList| #[trigger] at(bytes@, pos as int, list_bytes(l)) && list_encodable(l) && list_canonical(l, (MAX_DEPTH - depth) as nat) implies l is Float && at(bytes@, p as int, u32s_bytes(l->Float_0@)) && l->Float_0@.len() == count by {}
        }
        let (v, q) = read_u32s(bytes, p, count)?;
        proof {
            assert forall|l: NbtList| #[trigger] at(bytes@, pos as int, list_bytes(l)) && list_encodable(l) && list_canonical(l, (MAX_DEPTH - depth) as nat) implies list_eq(NbtList::Float(v), l) && q == pos + list_bytes(l).len() by {
                lemma_be_len(list_len(l), 4);
            }
        }
        (NbtList::Float(v), q)
    } else if id == DOUBLE_ID {
        proof {
            assert forall|l: NbtList| #[trigger] at(bytes@, pos as int, list_bytes(l)) && list_encodable(l) && list_canonical(l, (MAX_DEPTH - depth) as nat) implies l is Double && at(bytes@, p as int, u64s_bytes(l->Double_0@)) && l->Double_0@.len() == count by {}
        }
        let (v, q) = read_u64s(bytes, p, count)?;
        proof {
            assert forall|l: NbtList| #[trigger] at(bytes@, pos as int, list_bytes(l)) && list_encodable(l) && list_canonical(l, (MAX_DEPTH - depth) as nat) implies list_eq(NbtList::Double(v), l) && q == pos + list_bytes(l).len() by {
                lemma_be_len(list_len(l), 4);
            }
        }
        (NbtList::Double(v), q)
    } else if id == BYTE_ARRAY_ID {
        proof {
            assert forall|l: NbtList| #[trigger] at(bytes@, pos as int, list_bytes(l)) && list_encodable(l) && list_canonical(l, (MAX_DEPTH - depth) as nat) implies l is ByteArray && at(bytes@, p as int, byte_arrays_bytes(l->ByteArray_0@)) && l->ByteArray_0@.len() == count by {}
        }
        let (v, q) = read_byte_arrays(bytes, p, count)?;
        proof {
            assert forall|l: NbtList| #[trigger] at(bytes@, pos as int, list_bytes(l)) && list_encodable(l) && list_canonical(l, (MAX_DEPTH - depth) as nat) implies forall|k: int| 0 <= k < count ==> #[trigger] v@[k]@ == l->ByteArray_0@[k]@ by {}
            assert forall|l: NbtList| #[trigger] at(bytes@, pos as int, list_bytes(l)) && list_encodable(l) && list_canonical(l, (MAX_DEPTH - depth) as nat) implies list_eq(NbtList::ByteArray(v), l) && q == pos + list_bytes(l).len() by {
                lemma_be_len(list_len(l), 4);
            }
        }
        (NbtList::ByteArray(v), q)
    } else if id == STRING_ID {
        proof {
            assert forall|l: NbtList| #[trigger] at(bytes@, pos as int, list_bytes(l)) && list_encodable(l) && list_canonical(l, (MAX_DEPTH - depth) as nat) implies l is String && at(bytes@, p as int, strings_bytes(l->String_0@)) && l->String_0@.len() == count by {}
        }
        let (v, q) = read_strings(bytes, p, count)?;
        proof {
            assert forall|l: NbtList| #[trigger] at(bytes@, pos as int, list_bytes(l)) && list_encodable(l) && list_canonical(l, (MAX_DEPTH - depth) as nat) implies forall|k: int| 0 <= k < count ==> #[trigger] v@[k]@ == l->String_0@[k]@ by {}
            assert forall|l: NbtList| #[trigger] at(bytes@, pos as int, list_bytes(l)) && list_encodable(l) && list_canonical(l, (MAX_DEPTH - depth) as nat) implies list_eq(NbtList::String(v), l) && q == pos + list_bytes(l).len() by {
                lemma_be_len(list_len(l), 4);
            }
        }
        (NbtList::String(v), q)
    } else if id == LIST_ID {
        proof {
            assert forall|l: NbtList| #[trigger] at(bytes@, pos as int, list_bytes(l)) && list_encodable(l) && list_canonical(l, (MAX_DEPTH - depth) as nat) implies l is List && at(bytes@, p as int, lists_chunks(l->List_0).flatten())
                && l->List_0@.len() == count && depth < MAX_DEPTH by {
                assert(list_canonical(l, (MAX_DEPTH - depth) as nat));
                let x = l->List_0;
                assert(x@.len() > 0);
                if list_canonical(x[0], (MAX_DEPTH - depth - 1) as nat) {
                }
            }
        }
        let (v, q) = read_lists(bytes, p, count, depth)?;
        proof {
            assert forall|l: NbtList| #[trigger] at(bytes@, pos as int, list_bytes(l)) && list_encodable(l) && list_canonical(l, (MAX_DEPTH - depth) as nat) implies list_eq(NbtList::List(v), l) && q == pos + list_bytes(l).len() by {
                lemma_be_len(list_len(l), 4);
            }
        }
        (NbtList::List(v), q)
    } else if id == COMPOUND_ID {
        proof {
            assert forall|l: NbtList| #[trigger] at(bytes@, pos as int, list_bytes(l)) && list_encodable(l) && list_canonical(l, (MAX_DEPTH - depth) as nat) implies l is Compound && at(bytes@, p as int, compounds_chunks(l->Compound_0).flatten())
                && l->Compound_0@.len() == count && depth < MAX_DEPTH by {
                assert(list_canonical(l, (MAX_DEPTH - depth) as nat));
                let x = l->Compound_0;
                assert(x@.len() > 0);
                if compound_canonical(x[0], (MAX_DEPTH - depth - 1) as nat) {
                }
            }
        }
        let (v, q) = read_compounds(bytes, p, count, depth)?;
        proof {
            assert forall|l: NbtList| #[trigger] at(bytes@, pos as int, list_bytes(l)) && list_encodable(l) && list_canonical(l, (MAX_DEPTH - depth) as nat) implies list_eq(NbtList::Compound(v), l) && q == pos + list_bytes(l).len() by {
                lemma_be_len(list_len(l), 4);
            }
        }
        (NbtList::Compound(v), q)
    } else if id == INT_ARRAY_ID {
        proof {
            assert forall|l: NbtList| #[trigger] at(bytes@, pos as int, list_bytes(l)) && list_encodable(l) && list_canonical(l, (MAX_DEPTH - depth) as nat) implies l is IntArray && at(bytes@, p as int, int_arrays_bytes(l->IntArray_0@)) && l->IntArray_0@.len() == count by {}
        }
        let (v, q) = read_int_arrays(bytes, p, count)?;
        proof {
            assert forall|l: NbtList| #[trigger] at(bytes@, pos as int, list_bytes(l)) && list_encodable(l) && list_canonical(l, (MAX_DEPTH - depth) as nat) implies forall|k: int| 0 <= k < count ==> #[trigger] v@[k]@ == l->IntArray_0@[k]@ by {}
            assert forall|l: NbtList| #[trigger] at(bytes@, pos as int, list_bytes(l)) && list_encodable(l) && list_canonical(l, (MAX_DEPTH - depth) as nat) implies list_eq(NbtList::IntArray(v), l) && q == pos + list_bytes(l).len() by {
                lemma_be_len(list_len(l), 4);
            }
        }
        (NbtList::IntArray(v), q)
    } else {
        proof {
            assert forall|l: NbtList| #[trigger] at(bytes@, pos as int, list_bytes(l)) && list_encodable(l) && list_canonical(l, (MAX_DEPTH - depth) as nat) implies l is LongArray && at(bytes@, p as int, long_arrays_bytes(l->LongArray_0@)) && l->LongArray_0@.len() == count by {}
        }
        let (v, q) = read_long_arrays(bytes, p, count)?;
        proof {
            assert forall|l: NbtList| #[trigger] at(bytes@, pos as int, list_bytes(l)) && list_encodable(l) && list_canonical(l, (MAX_DEPTH - depth) as nat) implies forall|k: int| 0 <= k < count ==> #[trigger] v@[k]@ == l->LongArray_0@[k]@ by {}
            assert forall|l: NbtList| #[trigger] at(bytes@, pos as int, list_bytes(l)) && list_encodable(l) && list_canonical(l, (MAX_DEPTH - depth) as nat) implies list_eq(NbtList::LongArray(v), l) && q == pos + list_bytes(l).len() by {
                lemma_be_len(list_len(l), 4);
            }
        }
        (NbtList::LongArray(v), q)
    };
    Ok(list)
}

/// Read `count` lists, the elements of a list of lists.
fn read_lists(bytes: &[u8], pos: usize, count: usize, depth: usize) -> (r: Result<(Vec<NbtList>, usize), NbtError>)
    requires
        depth <= MAX_DEPTH,
        pos <= bytes@.len(),
    ensures
        r matches Ok((v, end)) ==> v@.len() == count && pos <= end <= bytes@.len(),
        r matches Err(NbtError::UnknownTypeId(b)) ==> b > 12,
        forall|a: Vec<NbtList>|
            a@.len() == count && (count > 0 ==> depth < MAX_DEPTH) && (forall|k: int| 0 <= k < count ==> list_encodable(#[trigger] a[k]) && list_canonical(a[k], (MAX_DEPTH - depth - 1) as nat)) && #[trigger] at(bytes@, pos as int, lists_chunks(a).flatten()) ==> (r matches Ok((v, end)) && (forall|k: int| 0 <= k < count ==> list_eq(#[trigger] v@[k], a[k]))
                && end == pos + lists_chunks(a).flatten().len()),
    decreases MAX_DEPTH - depth, 0nat,
{
    if count > 0 && depth >= MAX_DEPTH {
        return Err(NbtError::RecursionLimitExceeded);
    }
    proof {
        assert forall|a: Vec<NbtList>| a@.len() == count && (count > 0 ==> depth < MAX_DEPTH) && (forall|k: int| 0 <= k < count ==> list_encodable(#[trigger] a[k]) && list_canonical(a[k], (MAX_DEPTH - depth - 1) as nat)) && #[trigger] at(bytes@, pos as int, lists_chunks(a).flatten()) implies count <= bytes@.len() - pos by {
            assert forall|k: int| 0 <= k < lists_chunks(a).len() implies (#[trigger] lists_chunks(a)[k]).len() >= 1 by {
                assert(lists_chunks(a)[k] == list_bytes(a[k]));
            }
            lemma_flatten_min(lists_chunks(a), 1);
        }
    }
    if count > bytes.len() - pos {
        return Err(NbtError::UnexpectedEndOfInput);
    }
    let mut items: Vec<NbtList> = Vec::new();
    let mut p = pos;
    let mut i: usize = 0;
    proof {
        assert forall|a: Vec<NbtList>| a@.len() == count && (count > 0 ==> depth < MAX_DEPTH) && (forall|k: int| 0 <= k < count ==> list_encodable(#[trigger] a[k]) && list_canonical(a[k], (MAX_DEPTH - depth - 1) as nat)) && #[trigger] at(bytes@, pos as int, lists_chunks(a).flatten()) implies p == pos + lists_chunks(a).take(0).flatten().len() by {
            assert(lists_chunks(a).take(0) =~= Seq::<Seq<u8>>::empty());
        }
    }
    while i < count
        invariant
            0 <= i <= count,
            count > 0 ==> depth < MAX_DEPTH,
            depth <= MAX_DEPTH,
            pos <= p <= bytes@.len(),
            items@.len() == i,
            forall|a: Vec<NbtList>|
                a@.len() == count && (count > 0 ==> depth < MAX_DEPTH) && (forall|k: int| 0 <= k < count ==> list_encodable(#[trigger] a[k]) && list_canonical(a[k], (MAX_DEPTH - depth - 1) as nat)) && #[trigger] at(bytes@, pos as int, lists_chunks(a).flatten()) ==> (forall|k: int| 0 <= k < i ==> list_eq(#[trigger] items@[k], a[k])) && p == pos
                    + lists_chunks(a).take(i as int).flatten().len(),
        decreases count - i,
    {
        proof {
            assert forall|a: Vec<NbtList>| a@.len() == count && (count > 0 ==> depth < MAX_DEPTH) && (forall|k: int| 0 <= k < count ==> list_encodable(#[trigger] a[k]) && list_canonical(a[k], (MAX_DEPTH - depth - 1) as nat)) && #[trigger] at(bytes@, pos as int, lists_chunks(a).flatten()) implies at(bytes@, p as int, list_bytes(a[i as int])) && list_encodable(a[i as int])
                && list_canonical(a[i as int], (MAX_DEPTH - (depth + 1)) as nat) by {
                lemma_at_chunk(bytes@, pos as int, lists_chunks(a), i as int);
                assert(lists_chunks(a)[i as int] == list_bytes(a[i as int]));
            }
        }
        let (v, next) = read_list(bytes, p, depth + 1)?;
        let ghost before = items@;
        items.push(v);
        proof {
            assert forall|a: Vec<NbtList>| a@.len() == count && (count > 0 ==> depth < MAX_DEPTH) && (forall|k: int| 0 <= k < count ==> list_encodable(#[trigger] a[k]) && list_canonical(a[k], (MAX_DEPTH - depth - 1) as nat)) && #[trigger] at(bytes@, pos as int, lists_chunks(a).flatten()) implies (forall|k: int| 0 <= k < i + 1 ==> list_eq(#[trigger] items@[k], a[k]))
                && next == pos + lists_chunks(a).take(i + 1).flatten().len() by {
                assert(items@[i as int] == v);
                assert forall|k: int| 0 <= k < i + 1 implies list_eq(#[trigger] items@[k], a[k]) by {
                    if k < i {
                        assert(items@[k] == before[k]);
                    }
                }
                lemma_flatten_take(lists_chunks(a), i as int);
                assert(lists_chunks(a)[i as int] == list_bytes(a[i as int]));
            }
        }
        p = next;
        i = i + 1;
    }
    proof {
        assert forall|a: Vec<NbtList>| a@.len() == count && (count > 0 ==> depth < MAX_DEPTH) && (forall|k: int| 0 <= k < count ==> list_encodable(#[trigger] a[k]) && list_canonical(a[k], (MAX_DEPTH - depth - 1) as nat)) && #[trigger] at(bytes@, pos as int, lists_chunks(a).flatten()) implies p == pos + lists_chunks(a).flatten().len() by {
            assert(lists_chunks(a).take(count as int) =~= lists_chunks(a));
        }
    }
    Ok((items, p))
}

/// Read `count` compounds, the elements of a list of compounds.
fn read_compounds(bytes: &[u8], pos: usize, count: usize, depth: usize) -> (r: Result<(Vec<NbtCompound>, usize), NbtError>)
    requires
        depth <= MAX_DEPTH,
        pos <= bytes@.len(),
    ensures
        r matches Ok((v, end)) ==> v@.len() == count && pos <= end <= bytes@.len(),
        r matches Err(NbtError::UnknownTypeId(b)) ==> b > 12,
        forall|a: Vec<NbtCompound>|
            a@.len() == count && (count > 0 ==> depth < MAX_DEPTH) && (forall|k: int| 0 <= k < count ==> compound_encodable(#[trigger] a[k]) && compound_canonical(a[k], (MAX_DEPTH - depth - 1) as nat)) && #[trigger] at(bytes@, pos as int, compounds_chunks(a).flatten()) ==> (r matches Ok((v, end)) && (forall|k: int| 0 <= k < count ==> compound_eq(#[trigger] v@[k], a[k]))
                && end == pos + compounds_chunks(a).flatten().len()),
    decreases MAX_DEPTH - depth, 0nat,
{
    if count > 0 && depth >= MAX_DEPTH {
        return Err(NbtError::RecursionLimitExceeded);
    }
    proof {
        assert forall|a: Vec<NbtCompound>| a@.len() == count && (count > 0 ==> depth < MAX_DEPTH) && (forall|k: int| 0 <= k < count ==> compound_encodable(#[trigger] a[k]) && compound_canonical(a[k], (MAX_DEPTH - depth - 1) as nat)) && #[trigger] at(bytes@, pos as int, compounds_chunks(a).flatten()) implies count <= bytes@.len() - pos by {
            assert forall|k: int| 0 <= k < compounds_chunks(a).len() implies (#[trigger] compounds_chunks(a)[k]).len() >= 1 by {
                assert(compounds_chunks(a)[k] == compound_bytes(a[k]));
            }
            lemma_flatten_min(compounds_chunks(a), 1);
        }
    }
    if count > bytes.len() - pos {
        return Err(NbtError::UnexpectedEndOfInput);
    }
    let mut items: Vec<NbtCompound> = Vec::new();
    let mut p = pos;
    let mut i: usize = 0;
    proof {
        assert forall|a: Vec<NbtCompound>| a@.len() == count && (count > 0 ==> depth < MAX_DEPTH) && (forall|k: int| 0 <= k < count ==> compound_encodable(#[trigger] a[k]) && compound_canonical(a[k], (MAX_DEPTH - depth - 1) as nat)) && #[trigger] at(bytes@, pos as int, compounds_chunks(a).flatten()) implies p == pos + compounds_chunks(a).take(0).flatten().len() by {
            assert(compounds_chunks(a).take(0) =~= Seq::<Seq<u8>>::empty());
        }
    }
    while i < count
        invariant
            0 <= i <= count,
            count > 0 ==> depth < MAX_DEPTH,
            depth <= MAX_DEPTH,
            pos <= p <= bytes@.len(),
            items@.len() == i,
            forall|a: Vec<NbtCompound>|
                a@.len() == count && (count > 0 ==> depth < MAX_DEPTH) && (forall|k: int| 0 <= k < count ==> compound_encodable(#[trigger] a[k]) && compound_canonical(a[k], (MAX_DEPTH - depth - 1) as nat)) && #[trigger] at(bytes@, pos as int, compounds_chunks(a).flatten()) ==> (forall|k: int| 0 <= k < i ==> compound_eq(#[trigger] items@[k], a[k])) && p == pos
                    + compounds_chunks(a).take(i as int).flatten().len(),
        decreases count - i,
    {
        proof {
            assert forall|a: Vec<NbtCompound>| a@.len() == count && (count > 0 ==> depth < MAX_DEPTH) && (forall|k: int| 0 <= k < count ==> compound_encodable(#[trigger] a[k]) && compound_canonical(a[k], (MAX_DEPTH - depth - 1) as nat)) && #[trigger] at(bytes@, pos as int, compounds_chunks(a).flatten()) implies at(bytes@, p as int, compound_bytes(a[i as int])) && compound_encodable(a[i as int])
                && compound_canonical(a[i as int], (MAX_DEPTH - (depth + 1)) as nat) by {
                lemma_at_chunk(bytes@, pos as int, compounds_chunks(a), i as int);
                assert(compounds_chunks(a)[i as int] == compound_bytes(a[i as int]));
            }
        }
        let (v, next) = read_compound(bytes, p, depth + 1)?;
        let ghost before = items@;
        items.push(v);
        proof {
            assert forall|a: Vec<NbtCompound>| a@.len() == count && (count > 0 ==> depth < MAX_DEPTH) && (forall|k: int| 0 <= k < count ==> compound_encodable(#[trigger] a[k]) && compound_canonical(a[k], (MAX_DEPTH - depth - 1) as nat)) && #[trigger] at(bytes@, pos as int, compounds_chunks(a).flatten()) implies (forall|k: int| 0 <= k < i + 1 ==> compound_eq(#[trigger] items@[k], a[k]))
                && next == pos + compounds_chunks(a).take(i + 1).flatten().len() by {
                assert(items@[i as int] == v);
                assert forall|k: int| 0 <= k < i + 1 implies compound_eq(#[trigger] items@[k], a[k]) by {
                    if k < i {
                        assert(items@[k] == before[k]);
                    }
                }
                lemma_flatten_take(compounds_chunks(a), i as int);
                assert(compounds_chunks(a)[i as int] == compound_bytes(a[i as int]));
            }
        }
        p = next;
        i = i + 1;
    }
    proof {
        assert forall|a: Vec<NbtCompound>| a@.len() == count && (count > 0 ==> depth < MAX_DEPTH) && (forall|k: int| 0 <= k < count ==> compound_encodable(#[trigger] a[k]) && compound_canonical(a[k], (MAX_DEPTH - depth - 1) as nat)) && #[trigger] at(bytes@, pos as int, compounds_chunks(a).flatten()) implies p == pos + compounds_chunks(a).flatten().len() by {
            assert(compounds_chunks(a).take(count as int) =~= compounds_chunks(a));
        }
    }
    Ok((items, p))
}

/// Read a compound: (type-ID, key, payload) triples up to an end byte.
fn read_compound(bytes: &[u8], pos: usize, depth: usize) -> (r: Result<(NbtCompound, usize), NbtError>)
    requires
        depth <= MAX_DEPTH,
        pos <= bytes@.len(),
    ensures
        r matches Ok((c, end)) ==> pos < end <= bytes@.len() && !c.is_sorted() && bytes@[end - 1] == 0,
        r matches Ok((c, end)) ==> forall|i: int|
            0 <= i < c.entries().len() ==> !(#[trigger] c.entries()[i].1 is End),
        r matches Err(NbtError::UnknownTypeId(b)) ==> b > 12,
        pos < bytes@.len() && bytes@[pos as int] == 0 ==> (r matches Ok((c, end)) && end == pos + 1
            && c.entries().len() == 0),
        pos >= bytes@.len() ==> r == Err::<(NbtCompound, usize), NbtError>(NbtError::UnexpectedEndOfInput),
        pos < bytes@.len() && bytes@[pos as int] > 12 ==> r == Err::<(NbtCompound, usize), NbtError>(
            NbtError::UnknownTypeId(bytes@[pos as int]),
        ),
        pos < bytes@.len() && 1 <= bytes@[pos as int] <= 12 && string_cut(bytes@, pos + 1) ==> r == Err::<
            (NbtCompound, usize),
            NbtError,
        >(NbtError::UnexpectedEndOfInput),
        pos < bytes@.len() && 1 <= bytes@[pos as int] <= 12 && !string_cut(bytes@, pos + 1) && !string_ok(
            bytes@,
            pos + 1,
        ) ==> r == Err::<(NbtCompound, usize), NbtError>(NbtError::InvalidStringEncoding),
        first_entry_negative_length(bytes@, pos as int) ==> (r matches Err(e) && e is NegativeOrExcessiveLength),
        forall|c: NbtCompound|
            #[trigger] at(bytes@, pos as int, compound_bytes(c)) && compound_encodable(c) && compound_canonical(c, (MAX_DEPTH - depth) as nat) ==> (r matches Ok((c2, end)) && compound_eq(c2, c) && end == pos + compound_bytes(c).len()),
    decreases MAX_DEPTH - depth, 1nat,
{
    let mut entries: Vec<(String, Tag)> = Vec::new();
    let mut p = pos;
    proof {
        assert forall|c: NbtCompound| #[trigger] at(bytes@, pos as int, compound_bytes(c)) && compound_encodable(c) && compound_canonical(c, (MAX_DEPTH - depth) as nat) implies p == pos + compound_chunks(c).take(0).flatten().len() by {
            assert(compound_chunks(c).take(0) =~= Seq::<Seq<u8>>::empty());
        }
    }
    loop
        invariant
            depth <= MAX_DEPTH,
            pos <= p <= bytes@.len(),
            p == pos ==> entries@.len() == 0,
            p > pos ==> pos < bytes@.len() && 1 <= bytes@[pos as int] <= 12 && string_ok(bytes@, pos + 1)
                && !first_entry_negative_length(bytes@, pos as int),
            forall|i: int| 0 <= i < entries@.len() ==> !(#[trigger] entries@[i].1 is End),
            forall|c: NbtCompound|
                #[trigger] at(bytes@, pos as int, compound_bytes(c)) && compound_encodable(c) && compound_canonical(c, (MAX_DEPTH - depth) as nat) ==> entries@.len() <= c.entries().len() && (forall|k: int|
                    0 <= k < entries@.len() ==> (#[trigger] entries@[k]).0@ == c.entries()[k].0@ && tag_eq(
                        entries@[k].1,
                        c.entries()[k].1,
                    )) && p == pos + compound_chunks(c).take(entries@.len() as int).flatten().len(),
        decreases bytes@.len() - p,
    {
        let ghost i = entries@.len() as int;
        proof {
            assert forall|c: NbtCompound| #[trigger] at(bytes@, pos as int, compound_bytes(c)) && compound_encodable(c) && compound_canonical(c, (MAX_DEPTH - depth) as nat) implies p < bytes@.len() && (i < c.entries().len() ==> (bytes@[p as int]
                == c.entries()[i].1.spec_id() && c.entries()[i].1.spec_id() != 0 && at(bytes@, p + 1, str_bytes(
                c.entries()[i].0@)) && str_fits(c.entries()[i].0@) && encodable(c.entries()[i].1) && canonical(
                c.entries()[i].1, (MAX_DEPTH - depth) as nat) && at(bytes@, p + 1 + str_bytes(c.entries()[i].0@).len(), payload(
                c.entries()[i].1)))) && (i == c.entries().len() ==> bytes@[p as int] == 0) by {
                let ss = compound_chunks(c);
                lemma_at_split(bytes@, pos as int, ss.flatten(), seq![0u8]);
                lemma_compound_encodable(c);
                lemma_compound_canonical(c, (MAX_DEPTH - depth) as nat);
                if i < c.entries().len() {
                    lemma_at_chunk(bytes@, pos as int, ss, i);
                    let e = c.entries()[i];
                    assert(ss[i] == seq![e.1.spec_id()] + str_bytes(e.0@) + payload(e.1));
                    lemma_at_split(bytes@, p as int, seq![e.1.spec_id()] + str_bytes(e.0@), payload(e.1));
                    lemma_at_split(bytes@, p as int, seq![e.1.spec_id()], str_bytes(e.0@));
                    assert(bytes@.subrange(p as int, p + 1)[0] == bytes@[p as int]);
                    assert(e.1.spec_id() != 0);
                } else {
                    assert(ss.take(i) =~= ss);
                    assert(bytes@.subrange(p as int, p + 1)[0] == bytes@[p as int]);
                }
            }
        }
        let (id, q) = read_u8(bytes, p)?;
        if id == END_ID {
            let ghost es = entries@;
            let c = NbtCompound::from_entries(entries);
            proof {
                assert forall|d: NbtCompound| #[trigger] at(bytes@, pos as int, compound_bytes(d)) && compound_encodable(d) && compound_canonical(d, (MAX_DEPTH - depth) as nat) implies compound_eq(c, d) && q == pos + compound_bytes(d).len() by {
                    assert(es.len() == d.entries().len());
                    assert forall|k: int| 0 <= k < c.entries().len() implies (#[trigger] c.entries()[k]).0@ == d.entries()[k].0@
                        && tag_eq(c.entries()[k].1, d.entries()[k].1) by {
                        assert(c.entries()[k] == es[k]);
                    }
                    lemma_compound_eq_pairwise(c, d);
                    assert(compound_chunks(d).take(i) =~= compound_chunks(d));
                }
            }
            return Ok((c, q));
        }
        if id > 12 {
            return Err(NbtError::UnknownTypeId(id));
        }
        let ghost kpos = q;
        let (key, q) = read_string(bytes, q)?;
        assert(p == pos ==> string_ok(bytes@, kpos as int));
        assert(p == pos ==> q == pos + 3 + declared_len(bytes@, pos + 1));
        let (value, q) = read_payload(bytes, q, id, depth)?;
        let ghost before = entries@;
        entries.push((key, value));
        proof {
            assert forall|c: NbtCompound| #[trigger] at(bytes@, pos as int, compound_bytes(c)) && compound_encodable(c) && compound_canonical(c, (MAX_DEPTH - depth) as nat) implies entries@.len() <= c.entries().len() && (forall|k: int|
                0 <= k < entries@.len() ==> (#[trigger] entries@[k]).0@ == c.entries()[k].0@ && tag_eq(
                    entries@[k].1,
                    c.entries()[k].1,
                )) && q == pos + compound_chunks(c).take(entries@.len() as int).flatten().len() by {
                assert forall|k: int| 0 <= k < entries@.len() implies (#[trigger] entries@[k]).0@ == c.entries()[k].0@
                    && tag_eq(entries@[k].1, c.entries()[k].1) by {
                    if k < i {
                        assert(entries@[k] == before[k]);
                    }
                }
                let ss = compound_chunks(c);
                lemma_flatten_take(ss, i);
                let e = c.entries()[i];
                assert(ss[i] == seq![e.1.spec_id()] + str_bytes(e.0@) + payload(e.1));
            }
        }
        p = q;
    }
}

/// Decode a value: its type-ID, then its payload. Bytes after the value
/// are left unread. Whatever `encode` makes of a canonical value decodes
/// back to a value equal to it.
pub fn decode(bytes: &[u8]) -> (r: Result<Tag, NbtError>)
    ensures
        bytes@.len() == 0 ==> r == Err::<Tag, NbtError>(NbtError::UnexpectedEndOfInput),
        bytes@.len() > 0 && bytes@[0] > 12 ==> r == Err::<Tag, NbtError>(NbtError::UnknownTypeId(bytes@[0])),
        r matches Ok(t) ==> t.spec_id() == bytes@[0],
        r matches Err(NbtError::UnknownTypeId(b)) ==> b > 12,
        bytes@.len() >= 3 && bytes@[0] == STRING_ID && declared_len(bytes@, 1) > bytes@.len() - 3 ==> r
            == Err::<Tag, NbtError>(NbtError::UnexpectedEndOfInput),
        bytes@.len() > 0 && bytes@[0] == STRING_ID && !string_cut(bytes@, 1) && !string_ok(bytes@, 1) ==> r
            == Err::<Tag, NbtError>(NbtError::InvalidStringEncoding),
        bytes@.len() >= 5 && (bytes@[0] == BYTE_ARRAY_ID || bytes@[0] == INT_ARRAY_ID || bytes@[0] == LONG_ARRAY_ID)
            && bytes@[1] >= 128 ==> (r matches Err(e) && e is NegativeOrExcessiveLength),
        forall|t: Tag|
            #[trigger] at(bytes@, 0, seq![t.spec_id()] + payload(t)) && encodable(t) && canonical(t, MAX_DEPTH as nat) ==> (r matches Ok(
                t2,
            ) && tag_eq(t2, t)),
{
    proof {
        assert forall|t: Tag| #[trigger] at(bytes@, 0, seq![t.spec_id()] + payload(t)) implies bytes@.len() > 0
            && bytes@[0] == t.spec_id() && at(bytes@, 1, payload(t)) by {
            lemma_at_split(bytes@, 0, seq![t.spec_id()], payload(t));
            assert(bytes@.subrange(0, 1)[0] == bytes@[0]);
        }
    }
    let (id, p) = read_u8(bytes, 0)?;
    let (t, _) = read_payload(bytes, p, id, 0)?;
    Ok(t)
}

/// Decode a named value, as the root of a stream carries it: its type-ID,
/// its name as a string, then its payload.
pub fn decode_named(bytes: &[u8]) -> (r: Result<(String, Tag), NbtError>)
    ensures
        bytes@.len() == 0 ==> r == Err::<(String, Tag), NbtError>(NbtError::UnexpectedEndOfInput),
        r matches Ok((_, t)) ==> t.spec_id() == bytes@[0],
        r matches Err(NbtError::UnknownTypeId(b)) ==> b > 12,
        bytes@.len() > 0 && bytes@[0] > 12 ==> r == Err::<(String, Tag), NbtError>(NbtError::UnknownTypeId(bytes@[0])),
        bytes@.len() > 0 && bytes@[0] <= 12 && string_cut(bytes@, 1) ==> r == Err::<(String, Tag), NbtError>(
            NbtError::UnexpectedEndOfInput,
        ),
        bytes@.len() > 0 && bytes@[0] <= 12 && !string_cut(bytes@, 1) && !string_ok(bytes@, 1) ==> r == Err::<
            (String, Tag),
            NbtError,
        >(NbtError::InvalidStringEncoding),
        forall|n: Seq<char>, t: Tag|
            #[trigger] at(bytes@, 0, seq![t.spec_id()] + str_bytes(n) + payload(t)) && str_fits(n) && encodable(t)
                && canonical(t, MAX_DEPTH as nat) ==> (r matches Ok((n2, t2)) && n2@ == n && tag_eq(t2, t)),
{
    proof {
        assert forall|n: Seq<char>, t: Tag|
            #[trigger] at(bytes@, 0, seq![t.spec_id()] + str_bytes(n) + payload(t)) implies bytes@.len() > 0
                && bytes@[0] == t.spec_id() && at(bytes@, 1, str_bytes(n)) && at(bytes@, 1 + str_bytes(n).len() as int, payload(t)) by {
            lemma_at_split(bytes@, 0, seq![t.spec_id()] + str_bytes(n), payload(t));
            lemma_at_split(bytes@, 0, seq![t.spec_id()], str_bytes(n));
            assert(bytes@.subrange(0, 1)[0] == bytes@[0]);
        }
    }
    let (id, p) = read_u8(bytes, 0)?;
    if id > 12 {
        return Err(NbtError::UnknownTypeId(id));
    }
    let (name, p) = read_string(bytes, p)?;
    let (t, _) = read_payload(bytes, p, id, 0)?;
    Ok((name, t))
}

/// Decode the payload of a compound: (type-ID, key, payload) triples up to
/// an end byte. A lone end byte is the empty compound.
pub fn decode_compound(bytes: &[u8]) -> (r: Result<NbtCompound, NbtError>)
    ensures
        bytes@.len() > 0 && bytes@[0] == 0 ==> (r matches Ok(c) && c.entries().len() == 0),
        r matches Ok(c) ==> !c.is_sorted(),
        r matches Err(NbtError::UnknownTypeId(b)) ==> b > 12,
        bytes@.len() == 0 ==> r == Err::<NbtCompound, NbtError>(NbtError::UnexpectedEndOfInput),
        bytes@.len() > 0 && bytes@[0] > 12 ==> r == Err::<NbtCompound, NbtError>(NbtError::UnknownTypeId(bytes@[0])),
        bytes@.len() > 0 && 1 <= bytes@[0] <= 12 && string_cut(bytes@, 1) ==> r == Err::<NbtCompound, NbtError>(
            NbtError::UnexpectedEndOfInput,
        ),
        bytes@.len() > 0 && 1 <= bytes@[0] <= 12 && !string_cut(bytes@, 1) && !string_ok(bytes@, 1) ==> r == Err::<
            NbtCompound,
            NbtError,
        >(NbtError::InvalidStringEncoding),
        first_entry_negative_length(bytes@, 0) ==> (r matches Err(e) && e is NegativeOrExcessiveLength),
        forall|c: NbtCompound|
            #[trigger] at(bytes@, 0, compound_bytes(c)) && compound_encodable(c) && compound_canonical(c, MAX_DEPTH as nat)
                ==> (r matches Ok(c2) && compound_eq(c2, c)),
{
    let (c, _) = read_compound(bytes, 0, 0)?;
    Ok(c)
}

/// Decode the payload of a list: element type-ID, signed count, then the
/// elements.
pub fn decode_list(bytes: &[u8]) -> (r: Result<NbtList, NbtError>)
    ensures
        r matches Ok(l) ==> l is Empty || l.spec_id() == bytes@[0],
        r matches Err(NbtError::UnknownTypeId(b)) ==> b > 12,
        bytes@.len() == 0 ==> r == Err::<NbtList, NbtError>(NbtError::UnexpectedEndOfInput),
        bytes@.len() > 0 && bytes@[0] > 12 ==> r == Err::<NbtList, NbtError>(NbtError::UnknownTypeId(bytes@[0])),
        forall|l: NbtList|
            #[trigger] at(bytes@, 0, list_bytes(l)) && list_encodable(l) && list_canonical(l, MAX_DEPTH as nat) ==> (
            r matches Ok(l2) && list_eq(l2, l)),
{
    let (l, _) = read_list(bytes, 0, 0)?;
    Ok(l)
}

} // verus!
