use large_nbt_fixer::decode::{decode, decode_root};
use large_nbt_fixer::navigate::{as_compound, as_list, field};
use large_nbt_fixer::tag::{Compound, Error, Field, Node, Tag};

fn inventory_buffer() -> Vec<u8> {
    let mut buf: Vec<u8> = vec![10, 0, 0];
    buf.push(9);
    buf.extend_from_slice(&[0, 9]);
    buf.extend_from_slice(b"Inventory");
    buf.extend_from_slice(&[1, 0, 0, 0, 2, 5, 7]);
    buf.push(0);
    buf.push(0);
    buf
}

#[test]
fn byte_is_signed() {
    let node = decode(&[0x80], 0, 1).unwrap();
    assert_eq!(node, Node { start: 0, end: 1, tag: Tag::Byte(-128) });
    assert_eq!(decode(&[0x7f], 0, 1).unwrap().tag, Tag::Byte(127));
    assert_eq!(decode(&[0xff], 0, 1).unwrap().tag, Tag::Byte(-1));
}

#[test]
fn short_is_big_endian() {
    let node = decode(&[0x12, 0x34], 0, 2).unwrap();
    assert_eq!(node, Node { start: 0, end: 2, tag: Tag::Short(0x1234) });
    assert_eq!(decode(&[0xff, 0xfe], 0, 2).unwrap().tag, Tag::Short(-2));
    assert_eq!(decode(&[0x80, 0x00], 0, 2).unwrap().tag, Tag::Short(i16::MIN));
}

#[test]
fn int_is_big_endian() {
    let node = decode(&[0x01, 0x02, 0x03, 0x04], 0, 3).unwrap();
    assert_eq!(node, Node { start: 0, end: 4, tag: Tag::Int(0x01020304) });
    assert_eq!(decode(&[0xff, 0xff, 0xff, 0xfe], 0, 3).unwrap().tag, Tag::Int(-2));
    assert_eq!(decode(&[0x80, 0, 0, 0], 0, 3).unwrap().tag, Tag::Int(i32::MIN));
}

#[test]
fn long_is_big_endian() {
    let node = decode(&[1, 2, 3, 4, 5, 6, 7, 8], 0, 4).unwrap();
    assert_eq!(node, Node { start: 0, end: 8, tag: Tag::Long(0x0102030405060708) });
    let minus_two = [0xff, 0xff, 0xff, 0xff, 0xff, 0xff, 0xff, 0xfe];
    assert_eq!(decode(&minus_two, 0, 4).unwrap().tag, Tag::Long(-2));
    assert_eq!(decode(&[0x80, 0, 0, 0, 0, 0, 0, 0], 0, 4).unwrap().tag, Tag::Long(i64::MIN));
}

#[test]
fn float_keeps_its_bits() {
    let node = decode(&[0x3f, 0x80, 0x00, 0x00], 0, 5).unwrap();
    assert_eq!(node, Node { start: 0, end: 4, tag: Tag::Float(0x3f80_0000) });
    match node.tag {
        Tag::Float(bits) => assert_eq!(f32::from_bits(bits), 1.0f32),
        _ => panic!("not a float"),
    }
}

#[test]
fn double_keeps_its_bits() {
    let node = decode(&[0xc0, 0x00, 0, 0, 0, 0, 0, 0], 0, 6).unwrap();
    assert_eq!(node, Node { start: 0, end: 8, tag: Tag::Double(0xc000_0000_0000_0000) });
    match node.tag {
        Tag::Double(bits) => assert_eq!(f64::from_bits(bits), -2.0f64),
        _ => panic!("not a double"),
    }
}

#[test]
fn scalar_at_an_offset() {
    let buf = [9, 9, 9, 0x00, 0x2a];
    let node = decode(&buf, 3, 2).unwrap();
    assert_eq!(node, Node { start: 3, end: 5, tag: Tag::Short(42) });
}

#[test]
fn byte_array_payload() {
    let node = decode(&[0, 0, 0, 3, 1, 0x80, 0xff], 0, 7).unwrap();
    assert_eq!(node, Node { start: 0, end: 7, tag: Tag::ByteArray(vec![1, -128, -1]) });
}

#[test]
fn int_array_payload() {
    let buf = [0, 0, 0, 2, 0, 0, 0, 1, 0xff, 0xff, 0xff, 0xff];
    let node = decode(&buf, 0, 11).unwrap();
    assert_eq!(node, Node { start: 0, end: 12, tag: Tag::IntArray(vec![1, -1]) });
}

#[test]
fn long_array_payload() {
    let mut buf = vec![0, 0, 0, 2];
    buf.extend_from_slice(&[0, 0, 0, 0, 0, 0, 1, 0]);
    buf.extend_from_slice(&[0xff, 0xff, 0xff, 0xff, 0xff, 0xff, 0xff, 0xfd]);
    let node = decode(&buf, 0, 12).unwrap();
    assert_eq!(node, Node { start: 0, end: 20, tag: Tag::LongArray(vec![256, -3]) });
}

#[test]
fn empty_array_is_its_count() {
    let node = decode(&[0, 0, 0, 0, 77], 0, 11).unwrap();
    assert_eq!(node, Node { start: 0, end: 4, tag: Tag::IntArray(vec![]) });
}

#[test]
fn text_payload() {
    let node = decode(&[0, 3, b'a', 0xc3, 0xa9], 0, 8).unwrap();
    assert_eq!(node, Node { start: 0, end: 5, tag: Tag::Text("a\u{e9}".to_string()) });
    let empty = decode(&[0, 0], 0, 8).unwrap();
    assert_eq!(empty, Node { start: 0, end: 2, tag: Tag::Text(String::new()) });
}

#[test]
fn text_that_is_not_utf8() {
    assert_eq!(decode(&[0, 1, 0xff], 0, 8), Err(Error::InvalidEncoding { offset: 0 }));
    assert_eq!(decode(&[0, 2, 0xc3, 0x28], 0, 8), Err(Error::InvalidEncoding { offset: 0 }));
}

#[test]
fn negative_lengths() {
    assert_eq!(decode(&[0xff, 0xff, 0xff, 0xff], 0, 7), Err(Error::NegativeLength { offset: 0 }));
    assert_eq!(decode(&[0x80, 0, 0, 0], 0, 11), Err(Error::NegativeLength { offset: 0 }));
    assert_eq!(decode(&[0x80, 0, 0, 0], 0, 12), Err(Error::NegativeLength { offset: 0 }));
    assert_eq!(decode(&[0xff, 0xff], 0, 8), Err(Error::NegativeLength { offset: 0 }));
    assert_eq!(decode(&[1, 0xff, 0xff, 0xff, 0xff], 0, 9), Err(Error::NegativeLength { offset: 1 }));
}

#[test]
fn unknown_kinds() {
    assert_eq!(decode(&[1, 2, 3], 0, 13), Err(Error::UnknownTagKind { offset: 0, id: 13 }));
    assert_eq!(decode(&[1, 2, 3], 1, 255), Err(Error::UnknownTagKind { offset: 1, id: 255 }));
    assert_eq!(decode(&[1, 2, 3], 0, 0), Err(Error::UnknownTagKind { offset: 0, id: 0 }));
    assert_eq!(decode(&[13, 0, 0, 1], 0, 10), Err(Error::UnknownTagKind { offset: 3, id: 13 }));
    assert_eq!(decode(&[0, 0, 0, 0, 1, 9], 0, 9), Err(Error::UnknownTagKind { offset: 5, id: 0 }));
}

#[test]
fn truncated_long_is_unexpected_end() {
    assert_eq!(decode(&[0, 0, 0, 1], 0, 4), Err(Error::UnexpectedEnd { offset: 0 }));
    let buf = [4, 0, 1, b'a', 1, 2, 3, 4];
    assert_eq!(decode_root(&buf), Err(Error::UnexpectedEnd { offset: 4 }));
}

#[test]
fn unexpected_ends() {
    assert_eq!(decode(&[], 0, 1), Err(Error::UnexpectedEnd { offset: 0 }));
    assert_eq!(decode(&[1], 5, 1), Err(Error::UnexpectedEnd { offset: 5 }));
    assert_eq!(decode(&[0], 0, 2), Err(Error::UnexpectedEnd { offset: 0 }));
    assert_eq!(decode(&[0, 0, 0, 2, 1], 0, 7), Err(Error::UnexpectedEnd { offset: 4 }));
    assert_eq!(decode(&[0, 0, 0, 1, 1, 2, 3], 0, 11), Err(Error::UnexpectedEnd { offset: 4 }));
    assert_eq!(decode(&[0, 0, 0], 0, 12), Err(Error::UnexpectedEnd { offset: 0 }));
    assert_eq!(decode(&[0, 2, b'a'], 0, 8), Err(Error::UnexpectedEnd { offset: 2 }));
    assert_eq!(decode(&[], 0, 9), Err(Error::UnexpectedEnd { offset: 0 }));
    assert_eq!(decode(&[1, 0, 0], 0, 9), Err(Error::UnexpectedEnd { offset: 1 }));
    assert_eq!(decode(&[1, 0, 0, 0, 2, 5], 0, 9), Err(Error::UnexpectedEnd { offset: 6 }));
    assert_eq!(decode(&[], 0, 10), Err(Error::UnexpectedEnd { offset: 0 }));
    assert_eq!(decode(&[1, 0, 0, 5], 0, 10), Err(Error::UnexpectedEnd { offset: 4 }));
    assert_eq!(decode(&[1, 0], 0, 10), Err(Error::UnexpectedEnd { offset: 1 }));
}

#[test]
fn empty_list_takes_five_bytes() {
    let node = decode(&[0, 0, 0, 0, 0, 99], 0, 9).unwrap();
    assert_eq!(node, Node { start: 0, end: 5, tag: Tag::List(vec![]) });
    let odd = decode(&[200, 0, 0, 0, 0], 0, 9).unwrap();
    assert_eq!(odd, Node { start: 0, end: 5, tag: Tag::List(vec![]) });
}

#[test]
fn list_children_share_the_element_kind() {
    let buf = [2, 0, 0, 0, 3, 0, 1, 0, 2, 0xff, 0xff];
    let node = decode(&buf, 0, 9).unwrap();
    let items = as_list(&node).unwrap();
    assert_eq!(items.len(), 3);
    assert_eq!(items[0], Node { start: 5, end: 7, tag: Tag::Short(1) });
    assert_eq!(items[1], Node { start: 7, end: 9, tag: Tag::Short(2) });
    assert_eq!(items[2], Node { start: 9, end: 11, tag: Tag::Short(-1) });
    assert_eq!(node.start, 0);
    assert_eq!(node.end, 11);
    for item in items.iter() {
        assert_eq!(decode(&buf, item.start, 2).as_ref(), Ok(item));
    }
}

#[test]
fn list_of_lists() {
    let buf = [9, 0, 0, 0, 2, 1, 0, 0, 0, 1, 42, 0, 0, 0, 0, 0];
    let node = decode(&buf, 0, 9).unwrap();
    let items = as_list(&node).unwrap();
    assert_eq!(items.len(), 2);
    assert_eq!(
        items[0],
        Node { start: 5, end: 11, tag: Tag::List(vec![Node { start: 10, end: 11, tag: Tag::Byte(42) }]) }
    );
    assert_eq!(items[1], Node { start: 11, end: 16, tag: Tag::List(vec![]) });
}

#[test]
fn empty_compound_is_its_terminator() {
    let node = decode_root(&[0]).unwrap();
    assert_eq!(node, Node { start: 0, end: 1, tag: Tag::Compound(Compound { fields: vec![] }) });
}

#[test]
fn compound_spans_leave_out_the_header() {
    let buf = [1, 0, 1, b'a', 5, 3, 0, 2, b'b', b'c', 0, 0, 0, 9, 0];
    let root = decode_root(&buf).unwrap();
    assert_eq!(root.start, 0);
    assert_eq!(root.end, 15);
    let fields = as_compound(&root).unwrap();
    assert_eq!(field(fields, "a"), Ok(&Node { start: 4, end: 5, tag: Tag::Byte(5) }));
    assert_eq!(field(fields, "bc"), Ok(&Node { start: 10, end: 14, tag: Tag::Int(9) }));
    assert_eq!(field(fields, "b"), Err(Error::MissingField));
    assert_eq!(field(fields, ""), Err(Error::MissingField));
}

#[test]
fn later_field_of_a_name_wins() {
    let buf = [1, 0, 1, b'a', 1, 1, 0, 1, b'a', 2, 0];
    let root = decode_root(&buf).unwrap();
    let fields = as_compound(&root).unwrap();
    assert_eq!(field(fields, "a"), Ok(&Node { start: 9, end: 10, tag: Tag::Byte(2) }));
    assert_eq!(fields.fields.len(), 1);
    assert!(root.is_well_formed());
}

#[test]
fn put_replaces_or_adds() {
    let mut compound = Compound::new();
    assert!(compound.fields.is_empty());
    compound.put("a".to_string(), Node { start: 0, end: 1, tag: Tag::Byte(1) });
    compound.put("b".to_string(), Node { start: 1, end: 3, tag: Tag::Short(2) });
    compound.put("a".to_string(), Node { start: 3, end: 7, tag: Tag::Int(3) });
    assert_eq!(compound.fields.len(), 2);
    assert_eq!(field(&compound, "a"), Ok(&Node { start: 3, end: 7, tag: Tag::Int(3) }));
    assert_eq!(field(&compound, "b"), Ok(&Node { start: 1, end: 3, tag: Tag::Short(2) }));
    assert_eq!(compound.fields[0].name, "a");
    assert_eq!(compound.fields[1].name, "b");
    assert!(compound.has_distinct_names());
}

#[test]
fn repeated_names_are_found() {
    let twice = Compound {
        fields: vec![
            Field { name: "x".to_string(), node: Node { start: 1, end: 2, tag: Tag::Byte(1) } },
            Field { name: "y".to_string(), node: Node { start: 2, end: 3, tag: Tag::Byte(2) } },
            Field { name: "x".to_string(), node: Node { start: 3, end: 4, tag: Tag::Byte(3) } },
        ],
    };
    assert!(!twice.has_distinct_names());
    assert_eq!(field(&twice, "x"), Ok(&Node { start: 3, end: 4, tag: Tag::Byte(3) }));
    let node = Node { start: 0, end: 5, tag: Tag::Compound(twice) };
    assert!(!node.is_well_formed());
    assert!(Compound::new().has_distinct_names());
}

#[test]
fn navigator_refuses_the_wrong_variant() {
    let byte = Node { start: 0, end: 1, tag: Tag::Byte(1) };
    assert_eq!(as_compound(&byte), Err(Error::WrongVariant));
    assert_eq!(as_list(&byte), Err(Error::WrongVariant));
    let list = Node { start: 0, end: 5, tag: Tag::List(vec![]) };
    assert_eq!(as_compound(&list), Err(Error::WrongVariant));
    assert_eq!(as_list(&list), Ok(&vec![]));
    let compound = Node { start: 0, end: 1, tag: Tag::Compound(Compound { fields: vec![] }) };
    assert_eq!(as_list(&compound), Err(Error::WrongVariant));
    assert_eq!(as_compound(&compound), Ok(&Compound { fields: vec![] }));
}

#[test]
fn field_of_a_hand_made_compound() {
    let compound = Compound {
        fields: vec![
            Field { name: "x".to_string(), node: Node { start: 1, end: 2, tag: Tag::Byte(1) } },
            Field { name: "y".to_string(), node: Node { start: 5, end: 7, tag: Tag::Short(2) } },
        ],
    };
    assert_eq!(field(&compound, "y"), Ok(&Node { start: 5, end: 7, tag: Tag::Short(2) }));
    assert_eq!(field(&compound, "z"), Err(Error::MissingField));
}

#[test]
fn inventory_tree() {
    let buf = inventory_buffer();
    assert_eq!(buf.len(), 24);
    let root = decode_root(&buf).unwrap();
    assert_eq!((root.start, root.end), (0, 24));
    let inner = field(as_compound(&root).unwrap(), "").unwrap();
    assert_eq!((inner.start, inner.end), (3, 23));
    let inventory = field(as_compound(inner).unwrap(), "Inventory").unwrap();
    assert_eq!((inventory.start, inventory.end), (15, 22));
    assert_eq!(inventory.size(), 7);
    let items = as_list(inventory).unwrap();
    assert_eq!(items[0], Node { start: 20, end: 21, tag: Tag::Byte(5) });
    assert_eq!(items[1], Node { start: 21, end: 22, tag: Tag::Byte(7) });
}

#[test]
fn span_alone_decodes_to_the_same_node() {
    let buf = inventory_buffer();
    let root = decode_root(&buf).unwrap();
    let inner = field(as_compound(&root).unwrap(), "").unwrap();
    let inventory = field(as_compound(inner).unwrap(), "Inventory").unwrap();
    let alone = &buf[inventory.start..inventory.end];
    let again = decode(alone, 0, 9).unwrap();
    assert_eq!((again.start, again.end), (0, alone.len()));
    let items = as_list(&again).unwrap();
    assert_eq!(items[0], Node { start: 5, end: 6, tag: Tag::Byte(5) });
    assert_eq!(items[1], Node { start: 6, end: 7, tag: Tag::Byte(7) });
    let inner_alone = &buf[inner.start..inner.end];
    let inner_again = decode(inner_alone, 0, 10).unwrap();
    assert_eq!((inner_again.start, inner_again.end), (0, inner_alone.len()));
    let moved = field(as_compound(&inner_again).unwrap(), "Inventory").unwrap();
    assert_eq!((moved.start, moved.end), (inventory.start - 3, inventory.end - 3));
}

#[test]
fn compound_fields_decode_again_from_their_spans() {
    let buf = [1, 0, 1, b'a', 5, 8, 0, 1, b't', 0, 2, b'h', b'i', 0];
    let root = decode_root(&buf).unwrap();
    let fields = as_compound(&root).unwrap();
    let a = field(fields, "a").unwrap();
    let t = field(fields, "t").unwrap();
    assert_eq!(decode(&buf[a.start..a.end], 0, 1).unwrap().tag, Tag::Byte(5));
    assert_eq!(decode(&buf[a.start..a.end], 0, 1).unwrap().end, a.end - a.start);
    assert_eq!(decode(&buf[t.start..t.end], 0, 8).unwrap().tag, Tag::Text("hi".to_string()));
    assert_eq!(decode(&buf[t.start..t.end], 0, 8).unwrap().end, t.end - t.start);
}

#[test]
fn root_without_terminator_fails() {
    let mut buf = inventory_buffer();
    buf.pop();
    assert_eq!(decode_root(&buf), Err(Error::UnexpectedEnd { offset: 23 }));
}
