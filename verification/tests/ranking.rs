use large_nbt_fixer::decode::decode;
use large_nbt_fixer::rank::{find_entry, rank, rank_children, ItemEntry};
use large_nbt_fixer::tag::{Compound, Error, Field, Node, Tag};

fn child(start: usize, size: usize) -> Node {
    Node { start, end: start + size, tag: Tag::ByteArray(vec![]) }
}

fn pairs(ranked: &[ItemEntry]) -> Vec<(usize, usize)> {
    ranked.iter().map(|entry| (entry.index, entry.size)).collect()
}

#[test]
fn ranking_is_stable() {
    let list = Node {
        start: 0,
        end: 19,
        tag: Tag::List(vec![child(5, 5), child(10, 3), child(13, 5), child(18, 1)]),
    };
    let ranked = rank(&list).unwrap();
    assert_eq!(pairs(&ranked), vec![(0, 5), (2, 5), (1, 3), (3, 1)]);
    assert_eq!(ranked[1], ItemEntry { index: 2, size: 5, start: 13, end: 18 });
}

#[test]
fn ranking_sorts_by_size_descending() {
    let children = vec![child(0, 1), child(1, 2), child(3, 3), child(6, 2), child(8, 0)];
    let ranked = rank_children(&children);
    assert_eq!(pairs(&ranked), vec![(2, 3), (1, 2), (3, 2), (0, 1), (4, 0)]);
    let none: Vec<Node> = vec![];
    assert_eq!(rank_children(&none), vec![]);
}

#[test]
fn ranking_an_empty_list_fails() {
    let list = Node { start: 0, end: 5, tag: Tag::List(vec![]) };
    assert_eq!(rank(&list), Err(Error::EmptyList));
}

#[test]
fn ranking_needs_a_list() {
    let node = Node { start: 0, end: 4, tag: Tag::Int(1) };
    assert_eq!(rank(&node), Err(Error::WrongVariant));
}

#[test]
fn ranking_one_child() {
    let list = Node { start: 2, end: 9, tag: Tag::List(vec![child(7, 2)]) };
    assert_eq!(rank(&list), Ok(vec![ItemEntry { index: 0, size: 2, start: 7, end: 9 }]));
}

#[test]
fn ranking_decoded_texts() {
    let buf = [8, 0, 0, 0, 3, 0, 1, b'a', 0, 3, b'b', b'c', b'd', 0, 1, b'e'];
    let list = decode(&buf, 0, 9).unwrap();
    let ranked = rank(&list).unwrap();
    assert_eq!(
        ranked,
        vec![
            ItemEntry { index: 1, size: 5, start: 8, end: 13 },
            ItemEntry { index: 0, size: 3, start: 5, end: 8 },
            ItemEntry { index: 2, size: 3, start: 13, end: 16 },
        ]
    );
}

#[test]
fn finding_an_entry_by_index() {
    let children = vec![child(0, 1), child(1, 4), child(5, 2)];
    let ranked = rank_children(&children);
    assert_eq!(find_entry(&ranked, 2), Some(ItemEntry { index: 2, size: 2, start: 5, end: 7 }));
    assert_eq!(find_entry(&ranked, 1), Some(ItemEntry { index: 1, size: 4, start: 1, end: 5 }));
    assert_eq!(find_entry(&ranked, 3), None);
    assert_eq!(find_entry(&vec![], 0), None);
}

#[test]
fn size_is_the_length_of_the_span() {
    assert_eq!(child(7, 12).size(), 12);
    assert_eq!(child(7, 0).size(), 0);
}

#[test]
fn well_formedness_is_checked_all_the_way_down() {
    let good = Node { start: 0, end: 9, tag: Tag::List(vec![child(5, 2), child(7, 2)]) };
    assert!(good.is_well_formed());
    let bad_child = Node { start: 9, end: 8, tag: Tag::Byte(0) };
    let outer = Node { start: 0, end: 9, tag: Tag::List(vec![child(5, 2), bad_child]) };
    assert!(!outer.is_well_formed());
    let bad_field = Field { name: "x".to_string(), node: Node { start: 3, end: 2, tag: Tag::Byte(0) } };
    let compound = Node { start: 0, end: 9, tag: Tag::Compound(Compound { fields: vec![bad_field] }) };
    assert!(!compound.is_well_formed());
    assert!(!Node { start: 2, end: 1, tag: Tag::Int(0) }.is_well_formed());
    let buf = [9, 0, 0, 0, 2, 1, 0, 0, 0, 1, 42, 0, 0, 0, 0, 0];
    assert!(decode(&buf, 0, 9).unwrap().is_well_formed());
}
