//! JSON documents as plain values.
use vstd::prelude::*;

use crate::text::same;

verus! {

/// What a JSON document says, as a mathematical value. Each node carries the compact
/// JSON text that it is written as.
pub struct Tree {
    pub text: Seq<char>,
    pub node: TreeNode,
}

pub enum TreeNode {
    Null,
    Bool(bool),
    /// A number, and the integer it is if it is one from the range of `i64`.
    Number(Option<i64>),
    Text(Seq<char>),
    Array(Seq<Tree>),
    Object(Seq<(Seq<char>, Tree)>),
}

/// A JSON document.
pub struct Json {
    /// The document as compact JSON text.
    pub text: String,
    pub node: Node,
}

pub enum Node {
    Null,
    Bool(bool),
    /// A number, and the integer it is if it is one from the range of `i64`.
    Number(Option<i64>),
    Text(String),
    Array(Vec<Json>),
    /// The fields, each under its own name.
    Object(Vec<(String, Json)>),
}

/// The document that a value stands for.
pub open spec fn tree_of(json: Json) -> Tree
    decreases json,
{
    Tree {
        text: json.text@,
        node: match json.node {
            Node::Null => TreeNode::Null,
            Node::Bool(b) => TreeNode::Bool(b),
            Node::Number(n) => TreeNode::Number(n),
            Node::Text(s) => TreeNode::Text(s@),
            Node::Array(items) => TreeNode::Array(
                Seq::new(
                    items@.len(),
                    |i: int|
                        if 0 <= i < items@.len() {
                            tree_of(items@[i])
                        } else {
                            arbitrary()
                        },
                ),
            ),
            Node::Object(fields) => TreeNode::Object(
                Seq::new(
                    fields@.len(),
                    |i: int|
                        if 0 <= i < fields@.len() {
                            (fields@[i].0@, tree_of(fields@[i].1))
                        } else {
                            arbitrary()
                        },
                ),
            ),
        },
    }
}

impl View for Json {
    type V = Tree;

    open spec fn view(&self) -> Tree {
        tree_of(*self)
    }
}

/// The documents that a list of values stands for.
pub open spec fn trees(items: Seq<Json>) -> Seq<Tree> {
    Seq::new(items.len(), |i: int| items[i]@)
}

/// The fields that a list of named values stands for.
pub open spec fn fields_of(fields: Seq<(String, Json)>) -> Seq<(Seq<char>, Tree)> {
    Seq::new(fields.len(), |i: int| (fields[i].0@, fields[i].1@))
}

/// The first field of that name.
pub open spec fn field(fields: Seq<(Seq<char>, Tree)>, name: Seq<char>) -> Option<Tree>
    decreases fields.len(),
{
    if fields.len() == 0 {
        None
    } else if fields[0].0 == name {
        Some(fields[0].1)
    } else {
        field(fields.drop_first(), name)
    }
}

impl Tree {
    /// The field of that name, if the document is an object that has one.
    pub open spec fn get(self, name: Seq<char>) -> Option<Tree> {
        match self.node {
            TreeNode::Object(fields) => field(fields, name),
            _ => None,
        }
    }

    /// The text, if the document is a string.
    pub open spec fn as_text(self) -> Option<Seq<char>> {
        match self.node {
            TreeNode::Text(s) => Some(s),
            _ => None,
        }
    }

    /// The text of the field of that name, if there is such a string.
    pub open spec fn text_at(self, name: Seq<char>) -> Option<Seq<char>> {
        match self.get(name) {
            Some(value) => value.as_text(),
            None => None,
        }
    }
}

/// The field of that name.
pub fn field_value<'a>(fields: &'a Vec<(String, Json)>, name: &str) -> (r: Option<&'a Json>)
    ensures
        match r {
            Some(value) => field(fields_of(fields@), name@) == Some(value@),
            None => field(fields_of(fields@), name@) is None,
        },
{
    let mut i: usize = 0;
    let ghost all = fields_of(fields@);
    assert(all.skip(0) =~= all);
    while i < fields.len()
        invariant
            i <= fields@.len(),
            all == fields_of(fields@),
            field(all, name@) == field(all.skip(i as int), name@),
        decreases fields@.len() - i,
    {
        assert(all.skip(i as int)[0] == (fields@[i as int].0@, fields@[i as int].1@));
        if same(fields[i].0.as_str(), name) {
            return Some(&fields[i].1);
        }
        assert(all.skip(i as int).drop_first() =~= all.skip(i + 1));
        i += 1;
    }
    None
}

impl Json {
    /// The field of that name, if the document is an object that has one.
    pub fn get(&self, name: &str) -> (r: Option<&Json>)
        ensures
            match r {
                Some(value) => self@.get(name@) == Some(value@),
                None => self@.get(name@) is None,
            },
    {
        match &self.node {
            Node::Object(fields) => {
                assert(self@.node->Object_0 =~= fields_of(fields@));
                field_value(fields, name)
            },
            _ => None,
        }
    }

    /// The text, if the document is a string.
    pub fn as_text(&self) -> (r: Option<&String>)
        ensures
            match r {
                Some(s) => self@.as_text() == Some(s@),
                None => self@.as_text() is None,
            },
    {
        match &self.node {
            Node::Text(s) => Some(s),
            _ => None,
        }
    }

    /// The text of the field of that name, if there is such a string.
    pub fn text_at(&self, name: &str) -> (r: Option<&String>)
        ensures
            match r {
                Some(s) => self@.text_at(name@) == Some(s@),
                None => self@.text_at(name@) is None,
            },
    {
        match self.get(name) {
            Some(value) => value.as_text(),
            None => None,
        }
    }

    /// The elements, if the document is an array.
    pub fn items(&self) -> (r: Option<&Vec<Json>>)
        ensures
            match r {
                Some(items) => self@.node == TreeNode::Array(trees(items@)),
                None => !(self@.node is Array),
            },
    {
        match &self.node {
            Node::Array(items) => {
                assert(self@.node->Array_0 =~= trees(items@));
                Some(items)
            },
            _ => None,
        }
    }
}

// ---------------------------------------------------------------------------
// Reading JSON text
// ---------------------------------------------------------------------------

#[verifier::external_type_specification]
#[verifier::external_body]
pub struct ExValue(serde_json::Value);

/// What a value of `serde_json` holds: its kind, its content down to the leaves, and the
/// compact JSON text that it prints as.
pub uninterp spec fn held(value: serde_json::Value) -> Tree;

/// What `serde_json::from_str` makes of a text: the document, or nothing where the text
/// is not one JSON document.
pub uninterp spec fn parsed(text: Seq<char>) -> Option<Tree>;

/// The words in which the `Display` of `serde_json::Error` says why `serde_json::from_str`
/// refuses a text.
pub uninterp spec fn refusal(text: Seq<char>) -> Seq<char>;

/// `serde_json::from_str` into a `Value`, with an error printed by its `Display`. Whether the
/// text is JSON, what it says, and in which words it is refused, is a matter of the text
/// alone.
#[verifier::external_body]
fn value_from_text(text: &str) -> (r: Result<serde_json::Value, String>)
    ensures
        match r {
            Ok(value) => parsed(text@) == Some(held(value)),
            Err(problem) => parsed(text@) is None && problem@ == refusal(text@),
        },
{
    match serde_json::from_str(text) {
        Ok(value) => Ok(value),
        Err(error) => Err(error.to_string()),
    }
}

/// What `serde_json::from_slice` makes of bytes: the document, or nothing where the bytes
/// are not one JSON document.
pub uninterp spec fn parsed_bytes(bytes: Seq<u8>) -> Option<Tree>;

/// `serde_json::from_slice` into a `Value`: whether the bytes are JSON, and what they say,
/// is a matter of the bytes alone.
#[verifier::external_body]
fn value_from_bytes(bytes: &[u8]) -> (r: Option<serde_json::Value>)
    ensures
        match r {
            Some(value) => parsed_bytes(bytes@) == Some(held(value)),
            None => parsed_bytes(bytes@) is None,
        },
{
    match serde_json::from_slice(bytes) {
        Ok(value) => Some(value),
        Err(_) => None,
    }
}

/// One level of a `serde_json` value.
enum Shape<'a> {
    Null,
    Bool(bool),
    Number(Option<i64>),
    Text(String),
    Array(Vec<&'a serde_json::Value>),
    Object(Vec<(String, &'a serde_json::Value)>),
}

spec fn shape_node(shape: Shape) -> TreeNode {
    match shape {
        Shape::Null => TreeNode::Null,
        Shape::Bool(b) => TreeNode::Bool(b),
        Shape::Number(n) => TreeNode::Number(n),
        Shape::Text(s) => TreeNode::Text(s@),
        Shape::Array(items) => TreeNode::Array(Seq::new(items@.len(), |i: int| held(*items@[i]))),
        Shape::Object(fields) => TreeNode::Object(
            Seq::new(fields@.len(), |i: int| (fields@[i].0@, held(*fields@[i].1))),
        ),
    }
}

/// The variant of a `serde_json::Value` with what it holds: the boolean, what `as_i64`
/// gives for a number, the string, the elements in order, or the fields in the order in
/// which the map hands them out.
#[verifier::external_body]
fn open_value<'a>(value: &'a serde_json::Value) -> (shape: Shape<'a>)
    ensures
        shape_node(shape) == held(*value).node,
{
    match value {
        serde_json::Value::Null => Shape::Null,
        serde_json::Value::Bool(b) => Shape::Bool(*b),
        serde_json::Value::Number(n) => Shape::Number(n.as_i64()),
        serde_json::Value::String(s) => Shape::Text(s.clone()),
        serde_json::Value::Array(items) => Shape::Array(items.iter().collect()),
        serde_json::Value::Object(fields) => {
            Shape::Object(fields.iter().map(|(name, value)| (name.clone(), value)).collect())
        },
    }
}

/// `serde_json::Value` printed by its `Display`: compact JSON text.
#[verifier::external_body]
fn print_value(value: &serde_json::Value) -> (text: String)
    ensures
        text@ == held(*value).text,
{
    value.to_string()
}

/// A `serde_json` value as a document of this library.
fn from_value(value: &serde_json::Value) -> (json: Json)
    ensures
        json@ == held(*value),
    decreases held(*value),
{
    let text = print_value(value);
    let ghost whole = held(*value);
    let node = match open_value(value) {
        Shape::Null => Node::Null,
        Shape::Bool(b) => Node::Bool(b),
        Shape::Number(n) => Node::Number(n),
        Shape::Text(s) => Node::Text(s),
        Shape::Array(items) => {
            let mut out: Vec<Json> = Vec::new();
            let mut i: usize = 0;
            while i < items.len()
                invariant
                    i <= items@.len(),
                    out@.len() == i,
                    whole == held(*value),
                    whole.node == TreeNode::Array(
                        Seq::new(items@.len(), |i: int| held(*items@[i])),
                    ),
                    forall|j: int| 0 <= j < i ==> (#[trigger] out@[j])@ == held(*items@[j]),
                decreases items@.len() - i,
            {
                assert(whole.node->Array_0[i as int] == held(*items@[i as int]));
                out.push(from_value(items[i]));
                i += 1;
            }
            assert(trees(out@) =~= whole.node->Array_0);
            let node = Node::Array(out);
            assert(tree_of(Json { text, node }).node->Array_0 =~= trees(out@));
            node
        },
        Shape::Object(fields) => {
            let mut out: Vec<(String, Json)> = Vec::new();
            let mut i: usize = 0;
            while i < fields.len()
                invariant
                    i <= fields@.len(),
                    out@.len() == i,
                    whole == held(*value),
                    whole.node == TreeNode::Object(
                        Seq::new(fields@.len(), |i: int| (fields@[i].0@, held(*fields@[i].1))),
                    ),
                    forall|j: int|
                        0 <= j < i ==> (#[trigger] out@[j]).0@ == fields@[j].0@ && out@[j].1@
                            == held(*fields@[j].1),
                decreases fields@.len() - i,
            {
                assert(whole.node->Object_0[i as int].1 == held(*fields@[i as int].1));
                out.push((fields[i].0.clone(), from_value(fields[i].1)));
                i += 1;
            }
            assert(fields_of(out@) =~= whole.node->Object_0);
            let node = Node::Object(out);
            assert(tree_of(Json { text, node }).node->Object_0 =~= fields_of(out@));
            node
        },
    };
    Json { text, node }
}

/// Reads a JSON document; where the text is none, says why in words.
pub fn read(text: &str) -> (r: Result<Json, String>)
    ensures
        match r {
            Ok(json) => parsed(text@) == Some(json@),
            Err(problem) => parsed(text@) is None && problem@ == refusal(text@),
        },
{
    match value_from_text(text) {
        Ok(value) => Ok(from_value(&value)),
        Err(problem) => Err(problem),
    }
}

/// Reads a JSON document from bytes.
pub fn read_bytes(bytes: &[u8]) -> (r: Option<Json>)
    ensures
        match r {
            Some(json) => parsed_bytes(bytes@) == Some(json@),
            None => parsed_bytes(bytes@) is None,
        },
{
    match value_from_bytes(bytes) {
        Some(value) => Some(from_value(&value)),
        None => None,
    }
}

/// The field of a name is the first one of that name; there is none only where no field has
/// it.
pub proof fn lemma_field(fields: Seq<(Seq<char>, Tree)>, name: Seq<char>, i: int)
    requires
        0 <= i < fields.len(),
        fields[i].0 == name,
        forall|j: int| 0 <= j < i ==> (#[trigger] fields[j]).0 != name,
    ensures
        field(fields, name) == Some(fields[i].1),
    decreases fields.len(),
{
    if i > 0 {
        assert(fields[0].0 != name);
        let rest = fields.drop_first();
        assert forall|j: int| 0 <= j < i - 1 implies (#[trigger] rest[j]).0 != name by {
            assert(rest[j] == fields[j + 1]);
        }
        lemma_field(rest, name, i - 1);
    }
}

/// What is not among the names of the fields has no field.
pub proof fn lemma_no_field(fields: Seq<(Seq<char>, Tree)>, name: Seq<char>)
    requires
        forall|j: int| 0 <= j < fields.len() ==> (#[trigger] fields[j]).0 != name,
    ensures
        field(fields, name) is None,
    decreases fields.len(),
{
    if fields.len() > 0 {
        let rest = fields.drop_first();
        assert(fields[0].0 != name);
        assert forall|j: int| 0 <= j < rest.len() implies (#[trigger] rest[j]).0 != name by {
            assert(rest[j] == fields[j + 1]);
        }
        lemma_no_field(rest, name);
    }
}

/// A document has fields only if it is an object, and a text only if it is a string.
pub proof fn lemma_reading_a_tree(tree: Tree, name: Seq<char>)
    ensures
        tree.node matches TreeNode::Object(fields) ==> tree.get(name) == field(fields, name),
        !(tree.node is Object) ==> tree.get(name) is None && tree.text_at(name) is None,
        tree.node matches TreeNode::Text(s) ==> tree.as_text() == Some(s),
        !(tree.node is Text) ==> tree.as_text() is None,
        tree.get(name) matches Some(value) ==> tree.text_at(name) == value.as_text(),
        tree.get(name) is None ==> tree.text_at(name) is None,
{
}

} // verus!
