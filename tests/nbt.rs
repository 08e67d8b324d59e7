use azalea_nbt::codec::{decode, decode_compound, decode_list, decode_named, encode, encode_named, NbtError};
use azalea_nbt::compound::NbtCompound;
use azalea_nbt::tag::{NbtList, Tag};

fn s(x: &str) -> String {
    x.to_string()
}

fn sample_pairs() -> Vec<(String, Tag)> {
    vec![
        (s("zeta"), Tag::Int(3)),
        (s("alpha"), Tag::String(s("first"))),
        (s("mid"), Tag::Long(-7)),
    ]
}

fn sample_tree() -> Tag {
    let mut inner = NbtCompound::with_capacity(2);
    inner.insert(s("flag"), Tag::Byte(-1));
    inner.insert(s("name"), Tag::String(s("héllo")));
    let mut root = NbtCompound::with_capacity(8);
    root.insert(s("short"), Tag::Short(-300));
    root.insert(s("int"), Tag::Int(i32::MIN));
    root.insert(s("long"), Tag::Long(i64::MAX));
    root.insert(s("float"), Tag::Float(1.5f32.to_bits()));
    root.insert(s("double"), Tag::Double((-2.25f64).to_bits()));
    root.insert(s("bytes"), Tag::ByteArray(vec![0, 1, 255]));
    root.insert(s("ints"), Tag::IntArray(vec![-1, 0, 70000]));
    root.insert(s("longs"), Tag::LongArray(vec![i64::MIN, 5]));
    root.insert(s("inner"), Tag::Compound(inner));
    root.insert(s("list"), Tag::List(NbtList::Int(vec![1, 2, 3])));
    root.insert(s("empty"), Tag::List(NbtList::Empty));
    root.insert(
        s("nested"),
        Tag::List(NbtList::List(vec![NbtList::String(vec![s("a"), s("b")]), NbtList::Empty])),
    );
    root.insert(
        s("compounds"),
        Tag::List(NbtList::Compound(vec![NbtCompound::from_entries(sample_pairs())])),
    );
    Tag::Compound(root)
}

#[test]
fn tag_ids_follow_the_wire_table() {
    assert_eq!(Tag::End.id(), 0);
    assert_eq!(Tag::Byte(1).id(), 1);
    assert_eq!(Tag::Short(1).id(), 2);
    assert_eq!(Tag::Int(1).id(), 3);
    assert_eq!(Tag::Long(1).id(), 4);
    assert_eq!(Tag::Float(0).id(), 5);
    assert_eq!(Tag::Double(0).id(), 6);
    assert_eq!(Tag::ByteArray(vec![]).id(), 7);
    assert_eq!(Tag::String(s("")).id(), 8);
    assert_eq!(Tag::List(NbtList::Empty).id(), 9);
    assert_eq!(Tag::Compound(NbtCompound::with_capacity(0)).id(), 10);
    assert_eq!(Tag::IntArray(vec![]).id(), 11);
    assert_eq!(Tag::LongArray(vec![]).id(), 12);
}

#[test]
fn list_ids_follow_their_elements() {
    assert_eq!(NbtList::Empty.id(), 0);
    assert_eq!(NbtList::Int(vec![1, 2]).id(), 3);
    assert_eq!(NbtList::String(vec![s("x")]).id(), 8);
    assert_eq!(NbtList::Compound(vec![]).id(), 10);
    assert_eq!(NbtList::LongArray(vec![vec![1]]).id(), 12);
}

#[test]
fn get_after_insert_unsorted_and_sort_returns_last_value() {
    let mut c = NbtCompound::from_entries(sample_pairs());
    c.insert_unsorted(s("beta"), Tag::Int(42));
    c.sort();
    assert_eq!(c.get(&s("beta")), Some(&Tag::Int(42)));
    assert_eq!(c.get(&s("zeta")), Some(&Tag::Int(3)));
    assert_eq!(c.get(&s("missing")), None);
}

#[test]
fn get_with_duplicate_keys_returns_the_last_inserted() {
    let mut c = NbtCompound::with_capacity(3);
    c.insert(s("k"), Tag::Int(1));
    c.insert(s("a"), Tag::Int(0));
    c.insert(s("k"), Tag::Int(2));
    assert_eq!(c.get(&s("k")), Some(&Tag::Int(2)));
}

#[test]
fn get_sorts_the_pairs_as_a_side_effect() {
    let mut c = NbtCompound::from_entries(sample_pairs());
    let keys: Vec<&str> = c.iter().iter().map(|(k, _)| k.as_str()).collect();
    assert_eq!(keys, vec!["zeta", "alpha", "mid"]);
    assert_eq!(c.get(&s("mid")), Some(&Tag::Long(-7)));
    let keys: Vec<&str> = c.iter().iter().map(|(k, _)| k.as_str()).collect();
    assert_eq!(keys, vec!["alpha", "mid", "zeta"]);
}

#[test]
fn sort_orders_keys_by_bytes() {
    let mut c = NbtCompound::with_capacity(4);
    c.insert(s("b"), Tag::End);
    c.insert(s("B"), Tag::End);
    c.insert(s("ab"), Tag::End);
    c.insert(s("a"), Tag::End);
    c.sort();
    let keys: Vec<&str> = c.iter().iter().map(|(k, _)| k.as_str()).collect();
    assert_eq!(keys, vec!["B", "a", "ab", "b"]);
}

#[test]
fn insert_unsorted_appends_in_order() {
    let mut c = NbtCompound::with_capacity(0);
    c.insert_unsorted(s("a"), Tag::Int(1));
    c.insert_unsorted(s("b"), Tag::Int(2));
    assert_eq!(c.len(), 2);
    let keys: Vec<&str> = c.iter().iter().map(|(k, _)| k.as_str()).collect();
    assert_eq!(keys, vec!["a", "b"]);
}

#[test]
fn compound_equality_ignores_order() {
    let a = NbtCompound::from_entries(sample_pairs());
    let mut reversed = sample_pairs();
    reversed.reverse();
    let b = NbtCompound::from_entries(reversed);
    assert!(a == b);
}

#[test]
fn compound_equality_sorted_and_unsorted_in_all_four_combinations() {
    let unsorted = || NbtCompound::from_entries(sample_pairs());
    let sorted = || {
        let mut c = NbtCompound::from_entries(sample_pairs());
        c.sort();
        c
    };
    assert!(unsorted() == unsorted());
    assert!(sorted() == unsorted());
    assert!(unsorted() == sorted());
    assert!(sorted() == sorted());
}

#[test]
fn compound_equality_sees_different_values_and_lengths() {
    let a = NbtCompound::from_entries(sample_pairs());
    let mut other = sample_pairs();
    other[2].1 = Tag::Long(8);
    assert!(a != NbtCompound::from_entries(other));
    let mut longer = sample_pairs();
    longer.push((s("extra"), Tag::End));
    assert!(a != NbtCompound::from_entries(longer));
    let mut renamed = sample_pairs();
    renamed[0].0 = s("eta");
    assert!(a != NbtCompound::from_entries(renamed));
}

#[test]
fn nested_compounds_compare_ignoring_order() {
    let mut reversed = sample_pairs();
    reversed.reverse();
    let a = Tag::List(NbtList::Compound(vec![NbtCompound::from_entries(sample_pairs())]));
    let b = Tag::List(NbtList::Compound(vec![NbtCompound::from_entries(reversed)]));
    assert_eq!(a, b);
    assert_ne!(Tag::Int(1), Tag::Long(1));
}

#[test]
fn encode_single_entry_compound() {
    let mut c = NbtCompound::with_capacity(1);
    c.insert(s("hello"), Tag::Int(1));
    let entry = vec![0x03, 0x00, 0x05, 0x68, 0x65, 0x6C, 0x6C, 0x6F, 0x00, 0x00, 0x00, 0x01, 0x00];
    let mut expected = vec![0x0A];
    expected.extend_from_slice(&entry);
    assert_eq!(encode(&Tag::Compound(c)), expected);
    let mut c = NbtCompound::with_capacity(1);
    c.insert(s("hello"), Tag::Int(1));
    let mut named = vec![0x0A, 0x00, 0x00];
    named.extend_from_slice(&entry);
    assert_eq!(encode_named(&s(""), &Tag::Compound(c)), named);
}

#[test]
fn encode_numbers_big_endian() {
    assert_eq!(encode(&Tag::Byte(-1)), vec![1, 0xFF]);
    assert_eq!(encode(&Tag::Short(-2)), vec![2, 0xFF, 0xFE]);
    assert_eq!(encode(&Tag::Int(0x01020304)), vec![3, 1, 2, 3, 4]);
    assert_eq!(encode(&Tag::Long(-1)), vec![4, 0xFF, 0xFF, 0xFF, 0xFF, 0xFF, 0xFF, 0xFF, 0xFF]);
    assert_eq!(encode(&Tag::Float(1.0f32.to_bits())), vec![5, 0x3F, 0x80, 0, 0]);
    assert_eq!(encode(&Tag::String(s("hi"))), vec![8, 0, 2, b'h', b'i']);
    assert_eq!(encode(&Tag::ByteArray(vec![9])), vec![7, 0, 0, 0, 1, 9]);
    assert_eq!(encode(&Tag::IntArray(vec![-1])), vec![11, 0, 0, 0, 1, 0xFF, 0xFF, 0xFF, 0xFF]);
}

#[test]
fn round_trip_of_a_full_tree() {
    let bytes = encode(&sample_tree());
    assert_eq!(decode(&bytes), Ok(sample_tree()));
    let named = encode_named(&s("root"), &sample_tree());
    assert_eq!(decode_named(&named), Ok((s("root"), sample_tree())));
}

#[test]
fn round_trip_of_every_list_kind() {
    let lists = || {
        vec![
            NbtList::Byte(vec![-1, 2]),
            NbtList::Short(vec![-300]),
            NbtList::Long(vec![1, -1]),
            NbtList::Float(vec![0.5f32.to_bits()]),
            NbtList::Double(vec![0.25f64.to_bits()]),
            NbtList::ByteArray(vec![vec![1, 2], vec![]]),
            NbtList::IntArray(vec![vec![7]]),
            NbtList::LongArray(vec![vec![8, 9]]),
        ]
    };
    for (l, expected) in lists().into_iter().zip(lists()) {
        let bytes = encode(&Tag::List(l));
        assert_eq!(decode(&bytes), Ok(Tag::List(expected)));
    }
}

#[test]
fn empty_list_round_trip() {
    let bytes = encode(&Tag::List(NbtList::Empty));
    assert_eq!(bytes, vec![9, 0, 0, 0, 0, 0]);
    let back = decode_list(&bytes[1..]).unwrap();
    assert_eq!(back, NbtList::Empty);
    assert_eq!(back.id(), 0);
}

#[test]
fn list_with_non_positive_count_is_empty() {
    assert_eq!(decode(&[9, 3, 0xFF, 0xFF, 0xFF, 0xFF]), Ok(Tag::List(NbtList::Empty)));
    assert_eq!(decode(&[9, 3, 0, 0, 0, 0]), Ok(Tag::List(NbtList::Empty)));
}

#[test]
fn lone_end_byte_is_an_empty_compound() {
    let c = decode_compound(&[0x00]).unwrap();
    assert_eq!(c.len(), 0);
    assert_eq!(decode(&[0x0A, 0x00]), Ok(Tag::Compound(NbtCompound::with_capacity(0))));
}

#[test]
fn truncated_string_is_unexpected_end() {
    assert_eq!(decode(&[0x08, 0x00, 0x05, b'h', b'e']), Err(NbtError::UnexpectedEndOfInput));
}

#[test]
fn decode_errors() {
    assert_eq!(decode(&[]), Err(NbtError::UnexpectedEndOfInput));
    assert_eq!(decode(&[13]), Err(NbtError::UnknownTypeId(13)));
    assert_eq!(decode(&[10, 13, 0, 0]), Err(NbtError::UnknownTypeId(13)));
    assert_eq!(decode(&[7, 0xFF, 0xFF, 0xFF, 0xFF]), Err(NbtError::NegativeOrExcessiveLength(-1)));
    assert_eq!(decode(&[9, 0, 0, 0, 0, 1]), Err(NbtError::NegativeOrExcessiveLength(1)));
    assert_eq!(decode(&[8, 0, 1, 0xFF]), Err(NbtError::InvalidStringEncoding));
    assert_eq!(decode(&[11, 0x7F, 0xFF, 0xFF, 0xFF, 1]), Err(NbtError::UnexpectedEndOfInput));
    assert_eq!(decode(&[3, 0, 0]), Err(NbtError::UnexpectedEndOfInput));
    assert_eq!(decode(&[10, 3, 0, 1, b'a', 0, 0, 0, 1]), Err(NbtError::UnexpectedEndOfInput));
}

#[test]
fn deep_nesting_hits_the_recursion_limit() {
    let mut bytes = vec![9];
    for _ in 0..600 {
        bytes.extend_from_slice(&[9, 0, 0, 0, 1]);
    }
    bytes.extend_from_slice(&[0, 0, 0, 0, 0]);
    assert_eq!(decode(&bytes), Err(NbtError::RecursionLimitExceeded));
}

#[test]
fn accessors_answer_only_for_their_variant() {
    let t = Tag::Int(5);
    assert_eq!(t.as_int(), Some(&5));
    assert_eq!(t.as_long(), None);
    assert_eq!(t.as_string(), None);
    let t = Tag::String(s("x"));
    assert_eq!(t.as_string(), Some(&s("x")));
    assert_eq!(t.as_byte(), None);
    let t = Tag::List(NbtList::Int(vec![1]));
    assert_eq!(t.as_list(), Some(&NbtList::Int(vec![1])));
    assert!(Tag::Compound(NbtCompound::with_capacity(0)).as_compound().is_some());
    assert_eq!(Tag::LongArray(vec![2]).as_long_array(), Some(&vec![2]));
    assert_eq!(Tag::default(), Tag::End);
}

#[test]
fn typed_empty_list_decodes_as_the_empty_list() {
    let bytes = encode(&Tag::List(NbtList::Int(vec![])));
    assert_eq!(bytes, vec![9, 3, 0, 0, 0, 0]);
    assert_eq!(decode(&bytes), Ok(Tag::List(NbtList::Empty)));
}

#[test]
fn round_trip_of_nested_lists_and_compounds() {
    let tree = || {
        let mut inner = NbtCompound::with_capacity(1);
        inner.insert(s("deep"), Tag::List(NbtList::List(vec![NbtList::Long(vec![1, 2])])));
        let mut outer = NbtCompound::with_capacity(1);
        outer.insert(s("c"), Tag::Compound(inner));
        Tag::List(NbtList::Compound(vec![outer, NbtCompound::with_capacity(0)]))
    };
    assert_eq!(decode(&encode(&tree())), Ok(tree()));
}

#[test]
fn decode_compound_entries_and_first_entry_errors() {
    let c = decode_compound(&[0x09, 0x00, 0x01, 0x6C, 0x00, 0x00, 0x00, 0x00, 0x00, 0x00]).unwrap();
    let entries: Vec<(&str, &Tag)> = c.iter().iter().map(|(k, v)| (k.as_str(), v)).collect();
    assert_eq!(entries, vec![("l", &Tag::List(NbtList::Empty))]);
    assert_eq!(entries[0].1.as_list().unwrap().id(), 0);

    let hello = [0x03, 0x00, 0x05, 0x68, 0x65, 0x6C, 0x6C, 0x6F, 0x00, 0x00, 0x00, 0x01, 0x00];
    let c = decode_compound(&hello).unwrap();
    assert!(c == NbtCompound::from_entries(vec![(s("hello"), Tag::Int(1))]));
    let entries: Vec<(&str, &Tag)> = c.iter().iter().map(|(k, v)| (k.as_str(), v)).collect();
    assert_eq!(entries, vec![("hello", &Tag::Int(1))]);

    let list = [0x09, 0x00, 0x01, b'x', 0x03, 0x00, 0x00, 0x00, 0x02, 0, 0, 0, 7, 0, 0, 0, 8, 0x00];
    let c = decode_compound(&list).unwrap();
    assert_eq!(c.iter()[0].1, Tag::List(NbtList::Int(vec![7, 8])));

    assert_eq!(decode_compound(&[0x08, 0x00, 0x05, 0x68, 0x65]), Err(NbtError::UnexpectedEndOfInput));
    assert_eq!(decode_compound(&[0x0D, 0x00, 0x01, 0x61]), Err(NbtError::UnknownTypeId(13)));
    assert_eq!(
        decode_compound(&[0x01, 0x00, 0x02, 0xC3, 0x28, 0x05, 0x00]),
        Err(NbtError::InvalidStringEncoding)
    );
    assert_eq!(
        decode_compound(&[0x07, 0x00, 0x01, 0x61, 0xFF, 0xFF, 0xFF, 0xFF]),
        Err(NbtError::NegativeOrExcessiveLength(-1))
    );
    assert_eq!(decode_compound(&[]), Err(NbtError::UnexpectedEndOfInput));
}

#[test]
fn strict_prefixes_of_an_encoding_are_cut_short() {
    let bytes = encode(&sample_tree());
    for n in 1..bytes.len() {
        assert_eq!(decode(&bytes[..n]), Err(NbtError::UnexpectedEndOfInput), "prefix of length {}", n);
    }
}

#[test]
fn decode_named_reads_name_and_value() {
    let bytes = encode_named(&s("root"), &Tag::Int(5));
    assert_eq!(decode_named(&bytes), Ok((s("root"), Tag::Int(5))));
    assert_eq!(decode_named(&[0x0D]), Err(NbtError::UnknownTypeId(13)));
    assert_eq!(decode_named(&[0x03, 0x00, 0x01, 0xFF]), Err(NbtError::InvalidStringEncoding));
}

#[test]
fn clone_gives_an_equal_tree() {
    let t = sample_tree();
    let copy = t.clone();
    assert_eq!(copy, t);
    assert_eq!(encode(&copy), encode(&t));
    let mut c = NbtCompound::from_entries(sample_pairs());
    c.sort();
    let d = c.clone();
    assert!(d == c);
    let keys: Vec<&str> = d.iter().iter().map(|(k, _)| k.as_str()).collect();
    assert_eq!(keys, vec!["alpha", "mid", "zeta"]);
}
