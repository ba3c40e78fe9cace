//! Typed accessors for walking a decoded tree.

use vstd::prelude::*;
use crate::tag::{entries_map, fields_view, Compound, Error, Node, Tag};

verus! {

/// The fields of a Compound node; any other node is of the wrong variant.
pub fn as_compound(node: &Node) -> (r: Result<&Compound, Error>)
    ensures
        match r {
            Ok(compound) => node.tag == Tag::Compound(*compound) && (node.well_formed()
                ==> compound.well_formed()),
            Err(e) => e == Error::WrongVariant && !(node.tag is Compound),
        },
{
    match &node.tag {
        Tag::Compound(compound) => Ok(compound),
        _ => Err(Error::WrongVariant),
    }
}

/// The children of a List node, in order; any other node is of the wrong
/// variant.
pub fn as_list(node: &Node) -> (r: Result<&Vec<Node>, Error>)
    ensures
        match r {
            Ok(items) => node.tag == Tag::List(*items) && (node.well_formed() ==> forall|i: int|
                0 <= i < items.len() ==> (#[trigger] items[i]).well_formed()),
            Err(e) => e == Error::WrongVariant && !(node.tag is List),
        },
{
    match &node.tag {
        Tag::List(items) => Ok(items),
        _ => Err(Error::WrongVariant),
    }
}

/// The node that the Compound maps `name` to, which is the field read last
/// under that name; a name that it does not hold is a missing field.
pub fn field<'a>(compound: &'a Compound, name: &str) -> (r: Result<&'a Node, Error>)
    ensures
        match r {
            Ok(node) => compound@.contains_key(name@) && compound@[name@] == node@ && (
            compound.well_formed() ==> node.well_formed()),
            Err(e) => e == Error::MissingField && !compound@.contains_key(name@),
        },
{
    let wanted: String = name.to_owned();
    let ghost entries = fields_view(compound.fields);
    let mut i: usize = compound.fields.len();
    assert(entries.subrange(0, i as int) =~= entries);
    while i > 0
        invariant
            i <= compound.fields.len(),
            wanted@ == name@,
            entries == fields_view(compound.fields),
            entries_map(entries.subrange(0, i as int)).contains_key(name@)
                == entries_map(entries).contains_key(name@),
            entries_map(entries).contains_key(name@) ==> entries_map(
                entries.subrange(0, i as int),
            )[name@] == entries_map(entries)[name@],
        decreases i,
    {
        i -= 1;
        assert(entries.subrange(0, i + 1).drop_last() =~= entries.subrange(0, i as int));
        if compound.fields[i].name == wanted {
            return Ok(&compound.fields[i].node);
        }
    }
    Err(Error::MissingField)
}

} // verus!
