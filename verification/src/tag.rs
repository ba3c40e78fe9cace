//! The value kinds of the format, the decoded tree, and its mathematical model.

use vstd::prelude::*;

verus! {

/// Identifier of the Compound terminator. It is not a value kind.
pub const KIND_END: u8 = 0;
/// Identifiers of the twelve value kinds.
pub const KIND_BYTE: u8 = 1;
pub const KIND_SHORT: u8 = 2;
pub const KIND_INT: u8 = 3;
pub const KIND_LONG: u8 = 4;
pub const KIND_FLOAT: u8 = 5;
pub const KIND_DOUBLE: u8 = 6;
pub const KIND_BYTE_ARRAY: u8 = 7;
pub const KIND_TEXT: u8 = 8;
pub const KIND_LIST: u8 = 9;
pub const KIND_COMPOUND: u8 = 10;
pub const KIND_INT_ARRAY: u8 = 11;
pub const KIND_LONG_ARRAY: u8 = 12;

/// Why decoding, navigating or ranking stopped.
#[derive(Debug, Clone, Copy, PartialEq, Eq, Structural)]
pub enum Error {
    /// The buffer ended before the read that starts at `offset` was complete.
    UnexpectedEnd { offset: usize },
    /// The text whose length prefix starts at `offset` is not valid UTF-8.
    InvalidEncoding { offset: usize },
    /// A payload of kind `id` was asked for at `offset`, and `id` is no value kind.
    UnknownTagKind { offset: usize, id: u8 },
    /// The count or length that starts at `offset` is negative.
    NegativeLength { offset: usize },
    /// The node is of another kind than the one asked for.
    WrongVariant,
    /// The Compound has no field of that name.
    MissingField,
    /// The List has no children to rank.
    EmptyList,
}

/// A decoded value. Floats are kept as their IEEE-754 bit patterns.
#[derive(Debug, PartialEq, Eq)]
pub enum Tag {
    Byte(i8),
    Short(i16),
    Int(i32),
    Long(i64),
    Float(u32),
    Double(u64),
    ByteArray(Vec<i8>),
    Text(String),
    List(Vec<Node>),
    Compound(Compound),
    IntArray(Vec<i32>),
    LongArray(Vec<i64>),
}

/// A decoded value together with the half-open byte span `[start, end)` of its
/// payload in the buffer it was decoded from.
#[derive(Debug, PartialEq, Eq)]
pub struct Node {
    pub start: usize,
    pub end: usize,
    pub tag: Tag,
}

/// One named entry of a Compound, as read.
#[derive(Debug, PartialEq, Eq)]
pub struct Field {
    pub name: String,
    pub node: Node,
}

/// The fields of a Compound, each name once, in the order in which the names
/// were first put. Putting a name again replaces what it stood for.
#[derive(Debug, PartialEq, Eq)]
pub struct Compound {
    pub fields: Vec<Field>,
}

/// The model of a decoded value.
pub enum Value {
    Byte(i8),
    Short(i16),
    Int(i32),
    Long(i64),
    Float(u32),
    Double(u64),
    ByteArray(Seq<i8>),
    Text(Seq<char>),
    List(Seq<Tree>),
    Compound(Map<Seq<char>, Tree>),
    IntArray(Seq<i32>),
    LongArray(Seq<i64>),
}

/// The model of a node: a value and the span of its payload.
pub struct Tree {
    pub start: int,
    pub end: int,
    pub value: Value,
}

/// The mapping that a sequence of named entries stands for: each name goes to
/// the entry that comes last under it.
pub open spec fn entries_map(entries: Seq<(Seq<char>, Tree)>) -> Map<Seq<char>, Tree>
    decreases entries.len(),
{
    if entries.len() == 0 {
        Map::empty()
    } else {
        entries_map(entries.drop_last()).insert(entries.last().0, entries.last().1)
    }
}

/// The model of `node`.
pub open spec fn node_view(node: Node) -> Tree
    decreases node,
{
    Tree { start: node.start as int, end: node.end as int, value: tag_view(node.tag) }
}

/// The models of the children of a List, in order.
pub open spec fn nodes_view(nodes: Vec<Node>) -> Seq<Tree>
    decreases nodes,
{
    Seq::new(
        nodes.len() as nat,
        |i: int|
            if 0 <= i < nodes.len() {
                node_view(nodes[i])
            } else {
                arbitrary()
            },
    )
}

/// The names of the fields of a Compound with the models of their nodes, in
/// order.
pub open spec fn fields_view(fields: Vec<Field>) -> Seq<(Seq<char>, Tree)>
    decreases fields,
{
    Seq::new(
        fields.len() as nat,
        |i: int|
            if 0 <= i < fields.len() {
                (fields[i].name@, node_view(fields[i].node))
            } else {
                arbitrary()
            },
    )
}

/// The model of `tag`.
pub open spec fn tag_view(tag: Tag) -> Value
    decreases tag,
{
    match tag {
        Tag::Byte(v) => Value::Byte(v),
        Tag::Short(v) => Value::Short(v),
        Tag::Int(v) => Value::Int(v),
        Tag::Long(v) => Value::Long(v),
        Tag::Float(bits) => Value::Float(bits),
        Tag::Double(bits) => Value::Double(bits),
        Tag::ByteArray(items) => Value::ByteArray(items@),
        Tag::Text(text) => Value::Text(text@),
        Tag::List(items) => Value::List(nodes_view(items)),
        Tag::Compound(compound) => Value::Compound(entries_map(fields_view(compound.fields))),
        Tag::IntArray(items) => Value::IntArray(items@),
        Tag::LongArray(items) => Value::LongArray(items@),
    }
}

/// Whether no name occurs twice in `fields`.
pub open spec fn names_distinct(fields: Seq<Field>) -> bool {
    forall|i: int, j: int|
        0 <= i < j < fields.len() ==> (#[trigger] fields[i]).name@ != (#[trigger] fields[j]).name@
}

/// Whether the span of `node`, and of every node below it, is ordered, and no
/// Compound among them holds a name twice.
pub open spec fn node_ordered(node: Node) -> bool
    decreases node,
{
    node.start <= node.end && tag_ordered(node.tag)
}

/// Whether the span of every node in `tag` is ordered, and no Compound among
/// them, `tag` itself included, holds a name twice.
pub open spec fn tag_ordered(tag: Tag) -> bool
    decreases tag,
{
    match tag {
        Tag::List(items) => forall|i: int|
            0 <= i < items.len() ==> node_ordered(#[trigger] items[i]),
        Tag::Compound(compound) => names_distinct(compound.fields@) && forall|i: int|
            0 <= i < compound.fields.len() ==> node_ordered(
                (#[trigger] compound.fields[i]).node,
            ),
        _ => true,
    }
}

impl View for Node {
    type V = Tree;

    open spec fn view(&self) -> Tree {
        node_view(*self)
    }
}

impl View for Tag {
    type V = Value;

    open spec fn view(&self) -> Value {
        tag_view(*self)
    }
}

impl View for Compound {
    type V = Map<Seq<char>, Tree>;

    open spec fn view(&self) -> Map<Seq<char>, Tree> {
        entries_map(fields_view(self.fields))
    }
}

/// Replacing the entry of a name that occurs once changes the mapping as
/// putting the name does.
proof fn lemma_entries_replace(entries: Seq<(Seq<char>, Tree)>, i: int, value: Tree)
    requires
        0 <= i < entries.len(),
        forall|a: int, b: int|
            0 <= a < b < entries.len() ==> (#[trigger] entries[a]).0 != (#[trigger] entries[b]).0,
    ensures
        entries_map(entries.update(i, (entries[i].0, value))) == entries_map(entries).insert(
            entries[i].0,
            value,
        ),
    decreases entries.len(),
{
    let name = entries[i].0;
    let updated = entries.update(i, (name, value));
    if i == entries.len() - 1 {
        assert(updated.drop_last() =~= entries.drop_last());
        assert(entries_map(updated) =~= entries_map(entries).insert(name, value));
    } else {
        let shorter = entries.drop_last();
        assert forall|a: int, b: int| 0 <= a < b < shorter.len() implies (#[trigger] shorter[a]).0
            != (#[trigger] shorter[b]).0 by {
            assert(shorter[a] == entries[a]);
            assert(shorter[b] == entries[b]);
        }
        lemma_entries_replace(shorter, i, value);
        assert(updated.drop_last() =~= shorter.update(i, (name, value)));
        assert(entries.last().0 != entries[i].0);
        assert(entries_map(updated) =~= entries_map(entries).insert(name, value));
    }
}

impl Compound {
    /// No name occurs twice, and every node in the Compound is well formed.
    pub open spec fn well_formed(&self) -> bool {
        tag_ordered(Tag::Compound(*self))
    }

    /// A Compound without fields.
    pub fn new() -> (r: Compound)
        ensures
            r@ == Map::<Seq<char>, Tree>::empty(),
            r.fields@.len() == 0,
            r.well_formed(),
    {
        let r = Compound { fields: Vec::new() };
        assert(fields_view(r.fields) =~= Seq::empty());
        r
    }

    /// Maps `name` to `node`, in place of what it stood for, if anything.
    #[verifier::loop_isolation(false)]
    pub fn put(&mut self, name: String, node: Node)
        requires
            names_distinct(old(self).fields@),
        ensures
            final(self)@ == old(self)@.insert(name@, node@),
            names_distinct(final(self).fields@),
            old(self).well_formed() && node.well_formed() ==> final(self).well_formed(),
    {
        let ghost before = *self;
        let ghost entry = (name@, node@);
        let ghost entry_node = node;
        let mut i: usize = 0;
        while i < self.fields.len()
            invariant
                i <= self.fields.len(),
                *self == before,
                names_distinct(before.fields@),
                entry == (name@, node@),
                forall|j: int| 0 <= j < i ==> (#[trigger] self.fields[j]).name@ != name@,
            decreases self.fields.len() - i,
        {
            if self.fields[i].name == name {
                self.fields.set(i, Field { name, node });
                proof {
                    let entries = fields_view(before.fields);
                    assert(fields_view(self.fields) =~= entries.update(i as int, entry));
                    assert forall|a: int, b: int| 0 <= a < b < entries.len() implies (
                    #[trigger] entries[a]).0 != (#[trigger] entries[b]).0 by {
                        assert(before.fields[a].name@ != before.fields[b].name@);
                    }
                    assert(entries[i as int].0 == name@);
                    lemma_entries_replace(entries, i as int, entry.1);
                    assert forall|a: int, b: int| 0 <= a < b < self.fields.len() implies (
                    #[trigger] self.fields[a]).name@ != (#[trigger] self.fields[b]).name@ by {
                        assert(before.fields[a].name@ != before.fields[b].name@);
                    }
                    if before.well_formed() && node_ordered(entry_node) {
                        assert forall|j: int| 0 <= j < self.fields.len() implies node_ordered(
                            (#[trigger] self.fields[j]).node,
                        ) by {
                            if j != i {
                                assert(self.fields[j] == before.fields[j]);
                            }
                        }
                    }
                }
                return ;
            }
            i += 1;
        }
        self.fields.push(Field { name, node });
        proof {
            assert(fields_view(self.fields) =~= fields_view(before.fields).push(entry));
            assert(fields_view(self.fields).drop_last() =~= fields_view(before.fields));
            assert forall|a: int, b: int| 0 <= a < b < self.fields.len() implies (
            #[trigger] self.fields[a]).name@ != (#[trigger] self.fields[b]).name@ by {
                if b < before.fields.len() {
                    assert(before.fields[a].name@ != before.fields[b].name@);
                }
            }
            if before.well_formed() && node_ordered(entry_node) {
                assert forall|j: int| 0 <= j < self.fields.len() implies node_ordered(
                    (#[trigger] self.fields[j]).node,
                ) by {
                    if j < before.fields.len() {
                        assert(self.fields[j] == before.fields[j]);
                    }
                }
            }
        }
    }

    /// Whether no name occurs twice, found by comparing the names in pairs.
    pub fn has_distinct_names(&self) -> (r: bool)
        ensures
            r == names_distinct(self.fields@),
    {
        let mut j: usize = 0;
        while j < self.fields.len()
            invariant
                j <= self.fields.len(),
                forall|a: int, b: int|
                    0 <= a < b < j ==> (#[trigger] self.fields[a]).name@ != (
                    #[trigger] self.fields[b]).name@,
            decreases self.fields.len() - j,
        {
            let mut i: usize = 0;
            while i < j
                invariant
                    i <= j < self.fields.len(),
                    forall|a: int|
                        0 <= a < i ==> (#[trigger] self.fields[a]).name@ != self.fields[j as int].name@,
                decreases j - i,
            {
                if self.fields[i].name == self.fields[j].name {
                    return false;
                }
                i += 1;
            }
            j += 1;
        }
        true
    }
}

impl Node {
    /// The span is ordered: it does not end before it starts. The same holds
    /// of every node below this one.
    pub open spec fn well_formed(&self) -> bool {
        node_ordered(*self)
    }

    /// Whether the node is well formed, found by walking the tree.
    pub fn is_well_formed(&self) -> (r: bool)
        ensures
            r == self.well_formed(),
        decreases *self,
    {
        if self.start > self.end {
            return false;
        }
        match &self.tag {
            Tag::List(items) => {
                let mut i: usize = 0;
                while i < items.len()
                    invariant
                        i <= items.len(),
                        self.tag == Tag::List(*items),
                        forall|j: int| 0 <= j < i ==> node_ordered(#[trigger] items[j]),
                    decreases items.len() - i,
                {
                    proof {
                        assert(decreases_to!(*self => self.tag));
                        assert(decreases_to!(self.tag => self.tag->List_0));
                        assert(decreases_to!(self.tag->List_0 => self.tag->List_0[i as int]));
                    }
                    if !items[i].is_well_formed() {
                        assert(!tag_ordered(self.tag)) by {
                            if tag_ordered(self.tag) {
                                assert(node_ordered(self.tag->List_0[i as int]));
                            }
                        }
                        return false;
                    }
                    i += 1;
                }
                true
            },
            Tag::Compound(compound) => {
                if !compound.has_distinct_names() {
                    return false;
                }
                let mut i: usize = 0;
                while i < compound.fields.len()
                    invariant
                        i <= compound.fields.len(),
                        self.tag == Tag::Compound(*compound),
                        names_distinct(compound.fields@),
                        forall|j: int|
                            0 <= j < i ==> node_ordered((#[trigger] compound.fields[j]).node),
                    decreases compound.fields.len() - i,
                {
                    proof {
                        assert(decreases_to!(*self => self.tag));
                        let fields = self.tag->Compound_0.fields;
                        assert(decreases_to!(self.tag => self.tag->Compound_0));
                        assert(decreases_to!(self.tag->Compound_0 => fields));
                        assert(decreases_to!(fields => fields[i as int]));
                        assert(decreases_to!(fields[i as int] => fields[i as int].node));
                    }
                    if !compound.fields[i].node.is_well_formed() {
                        assert(!tag_ordered(self.tag)) by {
                            if tag_ordered(self.tag) {
                                assert(node_ordered(self.tag->Compound_0.fields[i as int].node));
                            }
                        }
                        return false;
                    }
                    i += 1;
                }
                true
            },
            _ => true,
        }
    }

    /// The number of bytes in the node's span.
    pub fn size(&self) -> (r: usize)
        requires
            self.start <= self.end,
        ensures
            r == self.end - self.start,
    {
        self.end - self.start
    }
}

} // verus!
