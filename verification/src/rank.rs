//! The children of a List, ranked by the size of their spans.

use vstd::prelude::*;
use crate::tag::{Error, Node, Tag};

verus! {

/// One child of a List: its position in the list, and its span and size.
#[derive(Debug, Clone, Copy, PartialEq, Eq, Structural)]
pub struct ItemEntry {
    pub index: usize,
    pub size: usize,
    pub start: usize,
    pub end: usize,
}

/// The entry that describes child `i` of `children`.
pub open spec fn entry_of(children: Seq<Node>, i: int) -> ItemEntry {
    ItemEntry {
        index: i as usize,
        size: (children[i].end - children[i].start) as usize,
        start: children[i].start,
        end: children[i].end,
    }
}

/// The order of a ranking: the larger entry first, and of two entries of one
/// size the one that stood first in the list.
pub open spec fn ranks_before(a: ItemEntry, b: ItemEntry) -> bool {
    a.size > b.size || (a.size == b.size && a.index < b.index)
}

/// Whether `ranked` has an entry for the child at position `k`.
pub open spec fn holds_child(ranked: Seq<ItemEntry>, k: int) -> bool {
    exists|p: int| 0 <= p < ranked.len() && (#[trigger] ranked[p]).index == k
}

/// Whether `ranked` holds exactly the entries of the first `count` children,
/// each once, in the order of a ranking.
pub open spec fn is_ranking_of(children: Seq<Node>, count: int, ranked: Seq<ItemEntry>) -> bool {
    &&& ranked.len() == count
    &&& forall|p: int|
        0 <= p < ranked.len() ==> 0 <= (#[trigger] ranked[p]).index < count && ranked[p]
            == entry_of(children, ranked[p].index as int)
    &&& forall|k: int| 0 <= k < count ==> #[trigger] holds_child(ranked, k)
    &&& forall|p: int, q: int|
        0 <= p < q < ranked.len() ==> ranks_before(#[trigger] ranked[p], #[trigger] ranked[q])
}

/// Whether each of `children` is well formed.
pub open spec fn spans_ordered(children: Seq<Node>) -> bool {
    forall|i: int| 0 <= i < children.len() ==> (#[trigger] children[i]).well_formed()
}

/// The entries of `children`, one per child, by size from the largest down;
/// children of one size keep the order they have in the list.
pub fn rank_children(children: &Vec<Node>) -> (ranked: Vec<ItemEntry>)
    requires
        spans_ordered(children@),
    ensures
        is_ranking_of(children@, children@.len() as int, ranked@),
{
    let mut ranked: Vec<ItemEntry> = Vec::new();
    let mut index: usize = 0;
    while index < children.len()
        invariant
            index <= children@.len(),
            spans_ordered(children@),
            is_ranking_of(children@, index as int, ranked@),
        decreases children@.len() - index,
    {
        let child = &children[index];
        let entry = ItemEntry { index, size: child.size(), start: child.start, end: child.end };
        let mut at: usize = 0;
        while at < ranked.len() && ranked[at].size >= entry.size
            invariant
                at <= ranked@.len(),
                forall|p: int| 0 <= p < at ==> (#[trigger] ranked@[p]).size >= entry.size,
            decreases ranked@.len() - at,
        {
            at += 1;
        }
        let ghost before = ranked@;
        ranked.insert(at, entry);
        proof {
            assert(ranked@[at as int] == entry);
            assert forall|p: int| 0 <= p < ranked@.len() && p != at implies #[trigger] ranked@[p]
                == before[if p < at {
                p
            } else {
                p - 1
            }] by {}
            assert forall|k: int| 0 <= k < index + 1 implies #[trigger] holds_child(
                ranked@,
                k,
            ) by {
                if k == index {
                    assert(ranked@[at as int].index == k);
                } else {
                    assert(holds_child(before, k));
                    let found = choose|p: int|
                        0 <= p < before.len() && (#[trigger] before[p]).index == k;
                    let shifted = if found < at {
                        found
                    } else {
                        found + 1
                    };
                    assert(ranked@[shifted] == before[found]);
                }
            }
            assert forall|p: int, q: int| 0 <= p < q < ranked@.len() implies ranks_before(
                #[trigger] ranked@[p],
                #[trigger] ranked@[q],
            ) by {
                if p == at {
                    assert(ranked@[q] == before[q - 1]);
                    if q - 1 > at {
                        assert(ranks_before(before[at as int], before[q - 1]));
                    }
                } else if q == at {
                    assert(ranked@[p] == before[p]);
                } else {
                    assert(ranked@[p] == before[if p < at { p } else { p - 1 }]);
                    assert(ranked@[q] == before[if q < at { q } else { q - 1 }]);
                }
            }
        }
        index += 1;
    }
    ranked
}

/// The ranking of a List node's children. A node that is no List is of the
/// wrong variant, and a List without children has nothing to rank.
pub fn rank(list: &Node) -> (r: Result<Vec<ItemEntry>, Error>)
    requires
        list.well_formed(),
    ensures
        match r {
            Ok(ranked) => list.tag matches Tag::List(children) && children@.len() > 0
                && is_ranking_of(children@, children@.len() as int, ranked@),
            Err(e) => match list.tag {
                Tag::List(children) => children@.len() == 0 && e == Error::EmptyList,
                _ => e == Error::WrongVariant,
            },
        },
{
    match &list.tag {
        Tag::List(children) => {
            if children.len() == 0 {
                Err(Error::EmptyList)
            } else {
                Ok(rank_children(children))
            }
        },
        _ => Err(Error::WrongVariant),
    }
}

/// The entry of the child at position `index` of the list, if `ranked` holds
/// one.
pub fn find_entry(ranked: &Vec<ItemEntry>, index: usize) -> (r: Option<ItemEntry>)
    ensures
        match r {
            Some(entry) => exists|p: int|
                0 <= p < ranked@.len() && ranked@[p] == entry && entry.index == index && forall|
                    q: int,
                | 0 <= q < p ==> (#[trigger] ranked@[q]).index != index,
            None => forall|p: int| 0 <= p < ranked@.len() ==> (#[trigger] ranked@[p]).index != index,
        },
{
    let mut at: usize = 0;
    while at < ranked.len()
        invariant
            at <= ranked@.len(),
            forall|p: int| 0 <= p < at ==> (#[trigger] ranked@[p]).index != index,
        decreases ranked@.len() - at,
    {
        if ranked[at].index == index {
            return Some(ranked[at]);
        }
        at += 1;
    }
    None
}

proof fn lemma_ranking_prefix(
    children: Seq<Node>,
    count: int,
    a: Seq<ItemEntry>,
    b: Seq<ItemEntry>,
    upto: int,
)
    requires
        is_ranking_of(children, count, a),
        is_ranking_of(children, count, b),
        0 <= upto <= count,
    ensures
        forall|q: int| 0 <= q < upto ==> a[q] == b[q],
    decreases upto,
{
    if upto > 0 {
        let p = upto - 1;
        lemma_ranking_prefix(children, count, a, b, p);
        assert(holds_child(b, a[p].index as int));
        let in_b = choose|r: int| 0 <= r < b.len() && (#[trigger] b[r]).index == a[p].index;
        assert(b[in_b] == a[p]);
        assert(holds_child(a, b[p].index as int));
        let in_a = choose|r: int| 0 <= r < a.len() && (#[trigger] a[r]).index == b[p].index;
        assert(a[in_a] == b[p]);
        if in_b < p {
            assert(a[in_b] == b[in_b]);
            assert(ranks_before(a[in_b], a[p]));
        } else if in_a < p {
            assert(a[in_a] == b[in_a]);
            assert(ranks_before(b[in_a], b[p]));
        } else if in_b > p && in_a > p {
            assert(ranks_before(b[p], b[in_b]));
            assert(ranks_before(a[p], a[in_a]));
        }
    }
}

/// A list has one ranking only: two sequences that both are rankings of the
/// same children are equal.
pub proof fn lemma_ranking_unique(
    children: Seq<Node>,
    count: int,
    a: Seq<ItemEntry>,
    b: Seq<ItemEntry>,
)
    requires
        is_ranking_of(children, count, a),
        is_ranking_of(children, count, b),
    ensures
        a == b,
{
    lemma_ranking_prefix(children, count, a, b, count);
    assert(a =~= b);
}

} // verus!
