//! The value model: a tag is one typed value, a list a homogeneous sequence.
use vstd::prelude::*;
use crate::compound::{NbtCompound, compound_eq, compound_equal, copy_compound, lemma_compound_eq_reflexive};
use crate::key::key_equal;


verus! {

pub const END_ID: u8 = 0;
pub const BYTE_ID: u8 = 1;
pub const SHORT_ID: u8 = 2;
pub const INT_ID: u8 = 3;
pub const LONG_ID: u8 = 4;
pub const FLOAT_ID: u8 = 5;
pub const DOUBLE_ID: u8 = 6;
pub const BYTE_ARRAY_ID: u8 = 7;
pub const STRING_ID: u8 = 8;
pub const LIST_ID: u8 = 9;
pub const COMPOUND_ID: u8 = 10;
pub const INT_ARRAY_ID: u8 = 11;
pub const LONG_ARRAY_ID: u8 = 12;

/// An NBT value.
///
/// `Float` and `Double` hold the IEEE-754 bit pattern of the number, which
/// is also what goes on the wire.
#[derive(Debug)]
pub enum Tag {
    End,
    Byte(i8),
    Short(i16),
    Int(i32),
    Long(i64),
    Float(u32),
    Double(u64),
    ByteArray(Vec<u8>),
    String(String),
    List(NbtList),
    Compound(NbtCompound),
    IntArray(Vec<i32>),
    LongArray(Vec<i64>),
}

/// A list of NBT values, all of one type.
#[derive(Debug)]
pub enum NbtList {
    Empty,
    Byte(Vec<i8>),
    Short(Vec<i16>),
    Int(Vec<i32>),
    Long(Vec<i64>),
    Float(Vec<u32>),
    Double(Vec<u64>),
    ByteArray(Vec<Vec<u8>>),
    String(Vec<String>),
    List(Vec<NbtList>),
    Compound(Vec<NbtCompound>),
    IntArray(Vec<Vec<i32>>),
    LongArray(Vec<Vec<i64>>),
}

impl Tag {
    /// The wire type-ID of this value's kind.
    pub open spec fn spec_id(self) -> u8 {
        match self {
            Tag::End => END_ID,
            Tag::Byte(_) => BYTE_ID,
            Tag::Short(_) => SHORT_ID,
            Tag::Int(_) => INT_ID,
            Tag::Long(_) => LONG_ID,
            Tag::Float(_) => FLOAT_ID,
            Tag::Double(_) => DOUBLE_ID,
            Tag::ByteArray(_) => BYTE_ARRAY_ID,
            Tag::String(_) => STRING_ID,
            Tag::List(_) => LIST_ID,
            Tag::Compound(_) => COMPOUND_ID,
            Tag::IntArray(_) => INT_ARRAY_ID,
            Tag::LongArray(_) => LONG_ARRAY_ID,
        }
    }

    /// Get the numerical ID of the tag type.
    pub fn id(&self) -> (r: u8)
        ensures
            r == self.spec_id(),
            r <= 12,
    {
        match self {
            Tag::End => END_ID,
            Tag::Byte(_) => BYTE_ID,
            Tag::Short(_) => SHORT_ID,
            Tag::Int(_) => INT_ID,
            Tag::Long(_) => LONG_ID,
            Tag::Float(_) => FLOAT_ID,
            Tag::Double(_) => DOUBLE_ID,
            Tag::ByteArray(_) => BYTE_ARRAY_ID,
            Tag::String(_) => STRING_ID,
            Tag::List(_) => LIST_ID,
            Tag::Compound(_) => COMPOUND_ID,
            Tag::IntArray(_) => INT_ARRAY_ID,
            Tag::LongArray(_) => LONG_ARRAY_ID,
        }
    }
}

impl Tag {
    /// The payload, when this is a `Byte`.
    pub fn as_byte(&self) -> (r: Option<&i8>)
        ensures
            r is Some <==> self is Byte,
            r matches Some(x) ==> *self == Tag::Byte(*x),
    {
        match self {
            Tag::Byte(x) => Some(x),
            _ => None,
        }
    }

    /// The payload, when this is a `Short`.
    pub fn as_short(&self) -> (r: Option<&i16>)
        ensures
            r is Some <==> self is Short,
            r matches Some(x) ==> *self == Tag::Short(*x),
    {
        match self {
            Tag::Short(x) => Some(x),
            _ => None,
        }
    }

    /// The payload, when this is a `Int`.
    pub fn as_int(&self) -> (r: Option<&i32>)
        ensures
            r is Some <==> self is Int,
            r matches Some(x) ==> *self == Tag::Int(*x),
    {
        match self {
            Tag::Int(x) => Some(x),
            _ => None,
        }
    }

    /// The payload, when this is a `Long`.
    pub fn as_long(&self) -> (r: Option<&i64>)
        ensures
            r is Some <==> self is Long,
            r matches Some(x) ==> *self == Tag::Long(*x),
    {
        match self {
            Tag::Long(x) => Some(x),
            _ => None,
        }
    }

    /// The payload, when this is a `Float`.
    pub fn as_float(&self) -> (r: Option<&u32>)
        ensures
            r is Some <==> self is Float,
            r matches Some(x) ==> *self == Tag::Float(*x),
    {
        match self {
            Tag::Float(x) => Some(x),
            _ => None,
        }
    }

    /// The payload, when this is a `Double`.
    pub fn as_double(&self) -> (r: Option<&u64>)
        ensures
            r is Some <==> self is Double,
            r matches Some(x) ==> *self == Tag::Double(*x),
    {
        match self {
            Tag::Double(x) => Some(x),
            _ => None,
        }
    }

    /// The payload, when this is a `ByteArray`.
    pub fn as_byte_array(&self) -> (r: Option<&Vec<u8>>)
        ensures
            r is Some <==> self is ByteArray,
            r matches Some(x) ==> *self == Tag::ByteArray(*x),
    {
        match self {
            Tag::ByteArray(x) => Some(x),
            _ => None,
        }
    }

    /// The payload, when this is a `String`.
    pub fn as_string(&self) -> (r: Option<&String>)
        ensures
            r is Some <==> self is String,
            r matches Some(x) ==> *self == Tag::String(*x),
    {
        match self {
            Tag::String(x) => Some(x),
            _ => None,
        }
    }

    /// The payload, when this is a `List`.
    pub fn as_list(&self) -> (r: Option<&NbtList>)
        ensures
            r is Some <==> self is List,
            r matches Some(x) ==> *self == Tag::List(*x),
    {
        match self {
            Tag::List(x) => Some(x),
            _ => None,
        }
    }

    /// The payload, when this is a `Compound`.
    pub fn as_compound(&self) -> (r: Option<&NbtCompound>)
        ensures
            r is Some <==> self is Compound,
            r matches Some(x) ==> *self == Tag::Compound(*x),
    {
        match self {
            Tag::Compound(x) => Some(x),
            _ => None,
        }
    }

    /// The payload, when this is a `IntArray`.
    pub fn as_int_array(&self) -> (r: Option<&Vec<i32>>)
        ensures
            r is Some <==> self is IntArray,
            r matches Some(x) ==> *self == Tag::IntArray(*x),
    {
        match self {
            Tag::IntArray(x) => Some(x),
            _ => None,
        }
    }

    /// The payload, when this is a `LongArray`.
    pub fn as_long_array(&self) -> (r: Option<&Vec<i64>>)
        ensures
            r is Some <==> self is LongArray,
            r matches Some(x) ==> *self == Tag::LongArray(*x),
    {
        match self {
            Tag::LongArray(x) => Some(x),
            _ => None,
        }
    }
}

impl Default for Tag {
    fn default() -> (r: Self)
        ensures
            r == Tag::End,
    {
        Tag::End
    }
}

impl NbtList {
    /// The wire type-ID of the elements' kind; `END_ID` for the empty list.
    pub open spec fn spec_id(self) -> u8 {
        match self {
            NbtList::Empty => END_ID,
            NbtList::Byte(_) => BYTE_ID,
            NbtList::Short(_) => SHORT_ID,
            NbtList::Int(_) => INT_ID,
            NbtList::Long(_) => LONG_ID,
            NbtList::Float(_) => FLOAT_ID,
            NbtList::Double(_) => DOUBLE_ID,
            NbtList::ByteArray(_) => BYTE_ARRAY_ID,
            NbtList::String(_) => STRING_ID,
            NbtList::List(_) => LIST_ID,
            NbtList::Compound(_) => COMPOUND_ID,
            NbtList::IntArray(_) => INT_ARRAY_ID,
            NbtList::LongArray(_) => LONG_ARRAY_ID,
        }
    }

    /// Get the numerical ID of the tag type of the elements.
    pub fn id(&self) -> (r: u8)
        ensures
            r == self.spec_id(),
            r <= 12,
    {
        match self {
            NbtList::Empty => END_ID,
            NbtList::Byte(_) => BYTE_ID,
            NbtList::Short(_) => SHORT_ID,
            NbtList::Int(_) => INT_ID,
            NbtList::Long(_) => LONG_ID,
            NbtList::Float(_) => FLOAT_ID,
            NbtList::Double(_) => DOUBLE_ID,
            NbtList::ByteArray(_) => BYTE_ARRAY_ID,
            NbtList::String(_) => STRING_ID,
            NbtList::List(_) => LIST_ID,
            NbtList::Compound(_) => COMPOUND_ID,
            NbtList::IntArray(_) => INT_ARRAY_ID,
            NbtList::LongArray(_) => LONG_ARRAY_ID,
        }
    }
}

/// Equality of values: structural, except that compounds are compared as
/// described by `compound_eq`.
pub open spec fn tag_eq(a: Tag, b: Tag) -> bool
    decreases a,
{
    match (a, b) {
        (Tag::End, Tag::End) => true,
        (Tag::Byte(x), Tag::Byte(y)) => x == y,
        (Tag::Short(x), Tag::Short(y)) => x == y,
        (Tag::Int(x), Tag::Int(y)) => x == y,
        (Tag::Long(x), Tag::Long(y)) => x == y,
        (Tag::Float(x), Tag::Float(y)) => x == y,
        (Tag::Double(x), Tag::Double(y)) => x == y,
        (Tag::ByteArray(x), Tag::ByteArray(y)) => x@ == y@,
        (Tag::String(x), Tag::String(y)) => x@ == y@,
        (Tag::List(x), Tag::List(y)) => list_eq(x, y),
        (Tag::Compound(x), Tag::Compound(y)) => compound_eq(x, y),
        (Tag::IntArray(x), Tag::IntArray(y)) => x@ == y@,
        (Tag::LongArray(x), Tag::LongArray(y)) => x@ == y@,
        _ => false,
    }
}

/// Equality of lists: same kind, same length, equal elements in order.
pub open spec fn list_eq(a: NbtList, b: NbtList) -> bool
    decreases a,
{
    match (a, b) {
        (NbtList::Empty, NbtList::Empty) => true,
        (NbtList::Byte(x), NbtList::Byte(y)) => x@ == y@,
        (NbtList::Short(x), NbtList::Short(y)) => x@ == y@,
        (NbtList::Int(x), NbtList::Int(y)) => x@ == y@,
        (NbtList::Long(x), NbtList::Long(y)) => x@ == y@,
        (NbtList::Float(x), NbtList::Float(y)) => x@ == y@,
        (NbtList::Double(x), NbtList::Double(y)) => x@ == y@,
        (NbtList::ByteArray(x), NbtList::ByteArray(y)) => x.len() == y.len() && forall|i: int|
            0 <= i < x.len() ==> #[trigger] x[i]@ == y[i]@,
        (NbtList::String(x), NbtList::String(y)) => x.len() == y.len() && forall|i: int|
            0 <= i < x.len() ==> #[trigger] x[i]@ == y[i]@,
        (NbtList::List(x), NbtList::List(y)) => x.len() == y.len() && forall|i: int|
            0 <= i < x.len() ==> list_eq(#[trigger] x[i], y[i]),
        (NbtList::Compound(x), NbtList::Compound(y)) => x.len() == y.len() && forall|i: int|
            0 <= i < x.len() ==> compound_eq(#[trigger] x[i], y[i]),
        (NbtList::IntArray(x), NbtList::IntArray(y)) => x.len() == y.len() && forall|i: int|
            0 <= i < x.len() ==> #[trigger] x[i]@ == y[i]@,
        (NbtList::LongArray(x), NbtList::LongArray(y)) => x.len() == y.len() && forall|i: int|
            0 <= i < x.len() ==> #[trigger] x[i]@ == y[i]@,
        _ => false,
    }
}

/// Every value equals itself.
pub proof fn lemma_tag_eq_reflexive(t: Tag)
    ensures
        tag_eq(t, t),
    decreases t,
{
    match t {
        Tag::List(l) => lemma_list_eq_reflexive(l),
        Tag::Compound(c) => lemma_compound_eq_reflexive(c),
        _ => {},
    }
}

/// Every list equals itself.
pub proof fn lemma_list_eq_reflexive(l: NbtList)
    ensures
        list_eq(l, l),
    decreases l,
{
    match l {
        NbtList::List(x) => {
            assert forall|i: int| 0 <= i < x.len() implies list_eq(#[trigger] x[i], x[i]) by {
                lemma_list_eq_reflexive(x[i]);
            }
        },
        NbtList::Compound(x) => {
            assert forall|i: int| 0 <= i < x.len() implies compound_eq(#[trigger] x[i], x[i]) by {
                lemma_compound_eq_reflexive(x[i]);
            }
        },
        _ => {},
    }
}

/// Whether two values are equal, as `tag_eq` says.
pub fn tag_equal(a: &Tag, b: &Tag) -> (r: bool)
    ensures
        r == tag_eq(*a, *b),
    decreases a,
{
    match (a, b) {
        (Tag::End, Tag::End) => true,
        (Tag::Byte(x), Tag::Byte(y)) => *x == *y,
        (Tag::Short(x), Tag::Short(y)) => *x == *y,
        (Tag::Int(x), Tag::Int(y)) => *x == *y,
        (Tag::Long(x), Tag::Long(y)) => *x == *y,
        (Tag::Float(x), Tag::Float(y)) => *x == *y,
        (Tag::Double(x), Tag::Double(y)) => *x == *y,
        (Tag::ByteArray(x), Tag::ByteArray(y)) => {
            let r = *x == *y;
            proof {
                if r {
                    assert(x@ =~= y@);
                }
            }
            r
        },
        (Tag::String(x), Tag::String(y)) => key_equal(x, y),
        (Tag::List(x), Tag::List(y)) => list_equal(x, y),
        (Tag::Compound(x), Tag::Compound(y)) => compound_equal(x, y),
        (Tag::IntArray(x), Tag::IntArray(y)) => {
            let r = *x == *y;
            proof {
                if r {
                    assert(x@ =~= y@);
                }
            }
            r
        },
        (Tag::LongArray(x), Tag::LongArray(y)) => {
            let r = *x == *y;
            proof {
                if r {
                    assert(x@ =~= y@);
                }
            }
            r
        },
        _ => false,
    }
}

/// Whether two lists are equal, as `list_eq` says.
pub fn list_equal(a: &NbtList, b: &NbtList) -> (r: bool)
    ensures
        r == list_eq(*a, *b),
    decreases a,
{
    match (a, b) {
        (NbtList::Empty, NbtList::Empty) => true,
        (NbtList::Byte(x), NbtList::Byte(y)) => {
            let r = *x == *y;
            proof {
                if r {
                    assert(x@ =~= y@);
                }
            }
            r
        },
        (NbtList::Short(x), NbtList::Short(y)) => {
            let r = *x == *y;
            proof {
                if r {
                    assert(x@ =~= y@);
                }
            }
            r
        },
        (NbtList::Int(x), NbtList::Int(y)) => {
            let r = *x == *y;
            proof {
                if r {
                    assert(x@ =~= y@);
                }
            }
            r
        },
        (NbtList::Long(x), NbtList::Long(y)) => {
            let r = *x == *y;
            proof {
                if r {
                    assert(x@ =~= y@);
                }
            }
            r
        },
        (NbtList::Float(x), NbtList::Float(y)) => {
            let r = *x == *y;
            proof {
                if r {
                    assert(x@ =~= y@);
                }
            }
            r
        },
        (NbtList::Double(x), NbtList::Double(y)) => {
            let r = *x == *y;
            proof {
                if r {
                    assert(x@ =~= y@);
                }
            }
            r
        },
        (NbtList::ByteArray(x), NbtList::ByteArray(y)) => {
            let r = *x == *y;
            proof {
                if r {
                    assert forall|i: int| 0 <= i < x.len() implies #[trigger] x[i]@ == y[i]@ by {
                        assert(x[i]@ =~= y[i]@);
                    }
                }
            }
            r
        },
        (NbtList::String(x), NbtList::String(y)) => strings_equal(x, y),
        (NbtList::List(x), NbtList::List(y)) => lists_equal(x, y),
        (NbtList::Compound(x), NbtList::Compound(y)) => compounds_equal(x, y),
        (NbtList::IntArray(x), NbtList::IntArray(y)) => {
            let r = *x == *y;
            proof {
                if r {
                    assert forall|i: int| 0 <= i < x.len() implies #[trigger] x[i]@ == y[i]@ by {
                        assert(x[i]@ =~= y[i]@);
                    }
                }
            }
            r
        },
        (NbtList::LongArray(x), NbtList::LongArray(y)) => {
            let r = *x == *y;
            proof {
                if r {
                    assert forall|i: int| 0 <= i < x.len() implies #[trigger] x[i]@ == y[i]@ by {
                        assert(x[i]@ =~= y[i]@);
                    }
                }
            }
            r
        },
        _ => false,
    }
}

fn strings_equal(x: &Vec<String>, y: &Vec<String>) -> (r: bool)
    ensures
        r == (x.len() == y.len() && forall|i: int| 0 <= i < x.len() ==> #[trigger] x[i]@ == y[i]@),
{
    if x.len() != y.len() {
        return false;
    }
    let mut i: usize = 0;
    while i < x.len()
        invariant
            0 <= i <= x.len(),
            x.len() == y.len(),
            forall|q: int| 0 <= q < i ==> #[trigger] x[q]@ == y[q]@,
        decreases x.len() - i,
    {
        if !key_equal(&x[i], &y[i]) {
            return false;
        }
        i = i + 1;
    }
    true
}

fn lists_equal(x: &Vec<NbtList>, y: &Vec<NbtList>) -> (r: bool)
    ensures
        r == (x.len() == y.len() && forall|i: int| 0 <= i < x.len() ==> list_eq(#[trigger] x[i], y[i])),
    decreases x,
{
    if x.len() != y.len() {
        return false;
    }
    let mut i: usize = 0;
    while i < x.len()
        invariant
            0 <= i <= x.len(),
            x.len() == y.len(),
            forall|q: int| 0 <= q < i ==> list_eq(#[trigger] x[q], y[q]),
        decreases x.len() - i,
    {
        assert(decreases_to!(x => x[i as int]));
        if !list_equal(&x[i], &y[i]) {
            return false;
        }
        i = i + 1;
    }
    true
}

fn compounds_equal(x: &Vec<NbtCompound>, y: &Vec<NbtCompound>) -> (r: bool)
    ensures
        r == (x.len() == y.len() && forall|i: int| 0 <= i < x.len() ==> compound_eq(#[trigger] x[i], y[i])),
    decreases x,
{
    if x.len() != y.len() {
        return false;
    }
    let mut i: usize = 0;
    while i < x.len()
        invariant
            0 <= i <= x.len(),
            x.len() == y.len(),
            forall|q: int| 0 <= q < i ==> compound_eq(#[trigger] x[q], y[q]),
        decreases x.len() - i,
    {
        assert(decreases_to!(x => x[i as int]));
        if !compound_equal(&x[i], &y[i]) {
            return false;
        }
        i = i + 1;
    }
    true
}

fn copy_nested<T: Copy>(x: &Vec<Vec<T>>) -> (r: Vec<Vec<T>>)
    ensures
        r.len() == x.len(),
        forall|i: int| 0 <= i < x.len() ==> #[trigger] r[i]@ == x[i]@,
{
    let mut r: Vec<Vec<T>> = Vec::with_capacity(x.len());
    let mut i: usize = 0;
    while i < x.len()
        invariant
            0 <= i <= x.len(),
            r.len() == i,
            forall|k: int| 0 <= k < i ==> #[trigger] r[k]@ == x[k]@,
        decreases x.len() - i,
    {
        r.push(vstd::slice::slice_to_vec(x[i].as_slice()));
        i = i + 1;
    }
    r
}

fn copy_strings(x: &Vec<String>) -> (r: Vec<String>)
    ensures
        r.len() == x.len(),
        forall|i: int| 0 <= i < x.len() ==> #[trigger] r[i]@ == x[i]@,
{
    let mut r: Vec<String> = Vec::with_capacity(x.len());
    let mut i: usize = 0;
    while i < x.len()
        invariant
            0 <= i <= x.len(),
            r.len() == i,
            forall|k: int| 0 <= k < i ==> #[trigger] r[k]@ == x[k]@,
        decreases x.len() - i,
    {
        r.push(x[i].clone());
        i = i + 1;
    }
    r
}

fn copy_lists(x: &Vec<NbtList>) -> (r: Vec<NbtList>)
    ensures
        r.len() == x.len(),
        forall|i: int| 0 <= i < x.len() ==> list_eq(#[trigger] r[i], x[i]),
    decreases x,
{
    let mut r: Vec<NbtList> = Vec::with_capacity(x.len());
    let mut i: usize = 0;
    while i < x.len()
        invariant
            0 <= i <= x.len(),
            r.len() == i,
            forall|k: int| 0 <= k < i ==> list_eq(#[trigger] r[k], x[k]),
        decreases x.len() - i,
    {
        assert(decreases_to!(x => x[i as int]));
        r.push(copy_list(&x[i]));
        i = i + 1;
    }
    r
}

fn copy_compounds(x: &Vec<NbtCompound>) -> (r: Vec<NbtCompound>)
    ensures
        r.len() == x.len(),
        forall|i: int| 0 <= i < x.len() ==> compound_eq(#[trigger] r[i], x[i]),
    decreases x,
{
    let mut r: Vec<NbtCompound> = Vec::with_capacity(x.len());
    let mut i: usize = 0;
    while i < x.len()
        invariant
            0 <= i <= x.len(),
            r.len() == i,
            forall|k: int| 0 <= k < i ==> compound_eq(#[trigger] r[k], x[k]),
        decreases x.len() - i,
    {
        assert(decreases_to!(x => x[i as int]));
        r.push(copy_compound(&x[i]));
        i = i + 1;
    }
    r
}

/// A copy of a list, equal to it.
pub fn copy_list(l: &NbtList) -> (r: NbtList)
    ensures
        list_eq(r, *l),
    decreases l,
{
    match l {
        NbtList::Empty => NbtList::Empty,
        NbtList::Byte(x) => NbtList::Byte(vstd::slice::slice_to_vec(x.as_slice())),
        NbtList::Short(x) => NbtList::Short(vstd::slice::slice_to_vec(x.as_slice())),
        NbtList::Int(x) => NbtList::Int(vstd::slice::slice_to_vec(x.as_slice())),
        NbtList::Long(x) => NbtList::Long(vstd::slice::slice_to_vec(x.as_slice())),
        NbtList::Float(x) => NbtList::Float(vstd::slice::slice_to_vec(x.as_slice())),
        NbtList::Double(x) => NbtList::Double(vstd::slice::slice_to_vec(x.as_slice())),
        NbtList::ByteArray(x) => NbtList::ByteArray(copy_nested(x)),
        NbtList::String(x) => NbtList::String(copy_strings(x)),
        NbtList::List(x) => NbtList::List(copy_lists(x)),
        NbtList::Compound(x) => NbtList::Compound(copy_compounds(x)),
        NbtList::IntArray(x) => NbtList::IntArray(copy_nested(x)),
        NbtList::LongArray(x) => NbtList::LongArray(copy_nested(x)),
    }
}

/// A copy of a value, equal to it.
pub fn copy_tag(t: &Tag) -> (r: Tag)
    ensures
        tag_eq(r, *t),
    decreases t,
{
    match t {
        Tag::End => Tag::End,
        Tag::Byte(x) => Tag::Byte(*x),
        Tag::Short(x) => Tag::Short(*x),
        Tag::Int(x) => Tag::Int(*x),
        Tag::Long(x) => Tag::Long(*x),
        Tag::Float(x) => Tag::Float(*x),
        Tag::Double(x) => Tag::Double(*x),
        Tag::ByteArray(x) => Tag::ByteArray(vstd::slice::slice_to_vec(x.as_slice())),
        Tag::String(x) => Tag::String(x.clone()),
        Tag::List(x) => Tag::List(copy_list(x)),
        Tag::Compound(x) => Tag::Compound(copy_compound(x)),
        Tag::IntArray(x) => Tag::IntArray(vstd::slice::slice_to_vec(x.as_slice())),
        Tag::LongArray(x) => Tag::LongArray(vstd::slice::slice_to_vec(x.as_slice())),
    }
}

impl Clone for Tag {
    /// A copy equal to this value, as `copy_tag` states.
    fn clone(&self) -> Self {
        copy_tag(self)
    }
}

impl Clone for NbtList {
    /// A copy equal to this list, as `copy_list` states.
    fn clone(&self) -> Self {
        copy_list(self)
    }
}

impl PartialEq for Tag {
    fn eq(&self, other: &Self) -> (r: bool) {
        tag_equal(self, other)
    }
}

impl vstd::std_specs::cmp::PartialEqSpecImpl for Tag {
    open spec fn obeys_eq_spec() -> bool {
        true
    }

    open spec fn eq_spec(&self, other: &Tag) -> bool {
        tag_eq(*self, *other)
    }
}

impl PartialEq for NbtList {
    fn eq(&self, other: &Self) -> (r: bool) {
        list_equal(self, other)
    }
}

impl vstd::std_specs::cmp::PartialEqSpecImpl for NbtList {
    open spec fn obeys_eq_spec() -> bool {
        true
    }

    open spec fn eq_spec(&self, other: &NbtList) -> bool {
        list_eq(*self, *other)
    }
}

} // verus!
