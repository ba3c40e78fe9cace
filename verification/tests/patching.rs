use large_nbt_fixer::decode::decode_root;
use large_nbt_fixer::navigate::{as_compound, as_list, field};
use large_nbt_fixer::patch::delete_span;
use large_nbt_fixer::rank::{find_entry, rank};
use large_nbt_fixer::tag::Error;

fn inventory_bytes() -> Vec<u8> {
    let mut buf: Vec<u8> = vec![10, 0, 0, 9, 0, 9];
    buf.extend_from_slice(b"Inventory");
    buf.extend_from_slice(&[1, 0, 0, 0, 2, 5, 7, 0, 0]);
    buf
}

#[test]
fn delete_span_keeps_prefix_and_suffix() {
    let whole: Vec<u8> = (0u8..10).collect();
    let mut buf = whole.clone();
    delete_span(&mut buf, 3, 7);
    assert_eq!(buf.len(), whole.len() - (7 - 3));
    assert_eq!(buf[..3], whole[..3]);
    assert_eq!(buf[3..], whole[7..]);
    assert_eq!(buf, vec![0, 1, 2, 7, 8, 9]);
}

#[test]
fn delete_span_at_the_edges() {
    let mut buf = vec![1u8, 2, 3];
    delete_span(&mut buf, 0, 0);
    assert_eq!(buf, vec![1, 2, 3]);
    delete_span(&mut buf, 3, 3);
    assert_eq!(buf, vec![1, 2, 3]);
    delete_span(&mut buf, 0, 1);
    assert_eq!(buf, vec![2, 3]);
    delete_span(&mut buf, 1, 2);
    assert_eq!(buf, vec![2]);
    delete_span(&mut buf, 0, 1);
    assert_eq!(buf, Vec::<u8>::new());
}

#[test]
fn delete_span_of_everything() {
    let mut buf = vec![9u8; 100];
    delete_span(&mut buf, 0, 100);
    assert!(buf.is_empty());
}

#[test]
fn inventory_scenario() {
    let mut buf = inventory_bytes();
    let root = decode_root(&buf).unwrap();
    let inner = field(as_compound(&root).unwrap(), "").unwrap();
    let inventory = field(as_compound(inner).unwrap(), "Inventory").unwrap();
    let ranked = rank(inventory).unwrap();
    assert_eq!(ranked.len(), 2);
    assert_eq!((ranked[0].index, ranked[0].size), (0, 1));
    assert_eq!((ranked[1].index, ranked[1].size), (1, 1));
    let chosen = find_entry(&ranked, 0).unwrap();
    assert_eq!(buf[chosen.start], 5);
    let before = buf.len();
    delete_span(&mut buf, chosen.start, chosen.end);
    assert_eq!(buf.len(), before - 1);
    assert_eq!(buf[chosen.start], 7);
}

#[test]
fn count_stays_stale_after_a_patch() {
    let mut buf = inventory_bytes();
    let root = decode_root(&buf).unwrap();
    let inner = field(as_compound(&root).unwrap(), "").unwrap();
    let inventory = field(as_compound(inner).unwrap(), "Inventory").unwrap();
    let first = &as_list(inventory).unwrap()[0];
    let (start, end) = (first.start, first.end);
    let count_at = inventory.start + 1;
    delete_span(&mut buf, start, end);
    assert_eq!(buf[count_at..count_at + 4], [0, 0, 0, 2]);
    assert_eq!(decode_root(&buf), Err(Error::UnexpectedEnd { offset: buf.len() }));
}
