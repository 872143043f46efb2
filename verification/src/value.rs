//! The value tree that gets flattened, and its mathematical model.

use vstd::prelude::*;

verus! {

/// A finite tree of structured-data values: the input to the flattening
/// traversal.
///
/// A number carries its canonical decimal rendering as text, so that the
/// traversal reproduces the source notation exactly (integers without a
/// decimal point, fractional values with one) and never reformats a leaf.
/// An object keeps its entries in insertion order.
pub enum Value {
    Null,
    Bool(bool),
    Number(String),
    String(String),
    Array(Vec<Value>),
    Object(Vec<(String, Value)>),
}

/// The mathematical shape of a [`Value`]: the same tree, with every piece of
/// text abstracted to a `Seq<char>` and every container to a `Seq`.
pub enum Node {
    Null,
    Bool(bool),
    Number(Seq<char>),
    String(Seq<char>),
    Array(Seq<Node>),
    Object(Seq<(Seq<char>, Node)>),
}

/// The model of a concrete value tree.
pub open spec fn node_of(v: Value) -> Node
    decreases v, 0nat,
{
    match v {
        Value::Null => Node::Null,
        Value::Bool(b) => Node::Bool(b),
        Value::Number(t) => Node::Number(t@),
        Value::String(s) => Node::String(s@),
        Value::Array(vs) => Node::Array(nodes_of(vs@)),
        Value::Object(fs) => Node::Object(entries_of(fs@)),
    }
}

/// The models of an array's elements, in order.
pub open spec fn nodes_of(s: Seq<Value>) -> Seq<Node>
    decreases s, 1nat,
{
    if s.len() == 0 {
        Seq::empty()
    } else {
        nodes_of(s.drop_last()).push(node_of(s.last()))
    }
}

/// The models of an object's entries, in insertion order.
pub open spec fn entries_of(s: Seq<(String, Value)>) -> Seq<(Seq<char>, Node)>
    decreases s, 1nat,
{
    if s.len() == 0 {
        Seq::empty()
    } else {
        entries_of(s.drop_last()).push((s.last().0@, node_of(s.last().1)))
    }
}

impl View for Value {
    type V = Node;

    open spec fn view(&self) -> Node {
        node_of(*self)
    }
}

/// `nodes_of` maps the sequence elementwise.
pub proof fn lemma_nodes_of(s: Seq<Value>)
    ensures
        nodes_of(s).len() == s.len(),
        forall|i: int| 0 <= i < s.len() ==> nodes_of(s)[i] == node_of(s[i]),
    decreases s.len(),
{
    if s.len() > 0 {
        lemma_nodes_of(s.drop_last());
    }
}

/// `entries_of` maps the sequence elementwise.
pub proof fn lemma_entries_of(s: Seq<(String, Value)>)
    ensures
        entries_of(s).len() == s.len(),
        forall|i: int| 0 <= i < s.len() ==> entries_of(s)[i] == (s[i].0@, node_of(s[i].1)),
    decreases s.len(),
{
    if s.len() > 0 {
        lemma_entries_of(s.drop_last());
    }
}

} // verus!
