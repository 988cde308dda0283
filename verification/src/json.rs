//! JSON documents as plain trees, read from text by `serde_json`.
//!
//! `serde_json` reads the text; what it hands back is copied, level by level,
//! into a tree of the library's own, which the rest of the library works on.

use vstd::prelude::*;

verus! {

/// `serde_json::Value`, whose content is read through `peel` alone.
#[verifier::external_type_specification]
#[verifier::external_body]
pub struct ExValue(serde_json::Value);

/// `serde_json::Error`, of which nothing is read.
#[verifier::external_type_specification]
#[verifier::external_body]
pub struct ExError(serde_json::Error);

/// The mathematical model of a JSON document. The members of an object stand
/// in the order in which the reader hands them out; a number is its decimal
/// text.
pub enum Tree {
    Null,
    Bool(bool),
    Number(Seq<char>),
    Text(Seq<char>),
    Array(Seq<Tree>),
    Object(Seq<(Seq<char>, Tree)>),
}

/// A JSON document.
#[derive(Debug, PartialEq, Eq)]
pub enum Json {
    Null,
    Bool(bool),
    Number(String),
    Text(String),
    Array(Vec<Json>),
    Object(Vec<(String, Json)>),
}

impl View for Json {
    type V = Tree;

    open spec fn view(&self) -> Tree
        decreases self,
    {
        match self {
            Json::Null => Tree::Null,
            Json::Bool(b) => Tree::Bool(*b),
            Json::Number(text) => Tree::Number(text@),
            Json::Text(text) => Tree::Text(text@),
            Json::Array(items) => Tree::Array(
                Seq::new(
                    items@.len(),
                    |i: int|
                        if 0 <= i < items@.len() {
                            items@[i].view()
                        } else {
                            Tree::Null
                        },
                ),
            ),
            Json::Object(members) => Tree::Object(
                Seq::new(
                    members@.len(),
                    |i: int|
                        (
                            members@[i].0@,
                            if 0 <= i < members@.len() {
                                members@[i].1.view()
                            } else {
                                Tree::Null
                            },
                        ),
                ),
            ),
        }
    }
}

/// The outermost level of a `serde_json::Value`: its own content as plain
/// values, and what it holds still unread.
pub enum Layer<'a> {
    Null,
    Bool(bool),
    Number(String),
    Text(&'a String),
    Array(&'a Vec<serde_json::Value>),
    Object(Vec<(&'a String, &'a serde_json::Value)>),
}

/// The document that `serde_json::from_str` reads from `text` as a
/// `serde_json::Value`, or `None` where it reports an error.
pub uninterp spec fn parsed_document(text: Seq<char>) -> Option<Tree>;

/// The document that a `serde_json::Value` holds.
pub uninterp spec fn value_tree(value: serde_json::Value) -> Tree;

/// The document that a layer shows, given what the values it holds are.
pub open spec fn layer_tree(layer: Layer) -> Tree {
    match layer {
        Layer::Null => Tree::Null,
        Layer::Bool(b) => Tree::Bool(b),
        Layer::Number(text) => Tree::Number(text@),
        Layer::Text(text) => Tree::Text(text@),
        Layer::Array(items) => Tree::Array(
            Seq::new(items@.len(), |i: int| value_tree(items@[i])),
        ),
        Layer::Object(members) => Tree::Object(
            Seq::new(members@.len(), |i: int| (members@[i].0@, value_tree(*members@[i].1))),
        ),
    }
}

/// Calls `serde_json::from_str` for a `serde_json::Value`. Believed: the
/// outcome depends on the text alone, so it is the one that `parsed_document`
/// names.
#[verifier::external_body]
fn read_value(text: &str) -> (outcome: Result<serde_json::Value, serde_json::Error>)
    ensures
        match outcome {
            Ok(value) => parsed_document(text@) == Some(value_tree(value)),
            Err(_) => parsed_document(text@) is None,
        },
{
    serde_json::from_str::<serde_json::Value>(text)
}

/// Tells the variants of a `serde_json::Value` apart and hands out what the
/// variant holds: a number through its `Display`, the members of an object in
/// the order of `serde_json::Map::iter`. Believed: this is the outermost level
/// of the document that `value_tree` names.
#[verifier::external_body]
fn peel<'a>(value: &'a serde_json::Value) -> (layer: Layer<'a>)
    ensures
        layer_tree(layer) == value_tree(*value),
{
    match value {
        serde_json::Value::Null => Layer::Null,
        serde_json::Value::Bool(b) => Layer::Bool(*b),
        serde_json::Value::Number(n) => Layer::Number(n.to_string()),
        serde_json::Value::String(s) => Layer::Text(s),
        serde_json::Value::Array(items) => Layer::Array(items),
        serde_json::Value::Object(members) => Layer::Object(members.iter().collect()),
    }
}

impl Json {
    /// Copies a `serde_json::Value` into a tree of plain values.
    fn from_value(value: &serde_json::Value) -> (tree: Json)
        ensures
            tree@ == value_tree(*value),
        decreases value_tree(*value),
    {
        match peel(value) {
            Layer::Null => Json::Null,
            Layer::Bool(b) => Json::Bool(b),
            Layer::Number(text) => Json::Number(text),
            Layer::Text(text) => Json::Text(text.clone()),
            Layer::Array(items) => {
                let ghost whole = value_tree(*value);
                let mut copies: Vec<Json> = Vec::new();
                let mut i: usize = 0;
                while i < items.len()
                    invariant
                        i <= items@.len(),
                        copies@.len() == i,
                        whole == value_tree(*value),
                        whole == Tree::Array(
                            Seq::new(items@.len(), |k: int| value_tree(items@[k])),
                        ),
                        forall|k: int| 0 <= k < i ==> copies@[k]@ == value_tree(items@[k]),
                    decreases items@.len() - i,
                {
                    proof {
                        let below = whole->Array_0;
                        assert(below[i as int] == value_tree(items@[i as int]));
                        assert(decreases_to!(whole => below));
                        assert(decreases_to!(below => below[i as int]));
                    }
                    let copy = Json::from_value(&items[i]);
                    copies.push(copy);
                    i += 1;
                }
                let tree = Json::Array(copies);
                assert(tree@->Array_0 =~= whole->Array_0);
                tree
            },
            Layer::Object(members) => {
                let ghost whole = value_tree(*value);
                let mut copies: Vec<(String, Json)> = Vec::new();
                let mut i: usize = 0;
                while i < members.len()
                    invariant
                        i <= members@.len(),
                        copies@.len() == i,
                        whole == value_tree(*value),
                        whole == Tree::Object(
                            Seq::new(
                                members@.len(),
                                |k: int| (members@[k].0@, value_tree(*members@[k].1)),
                            ),
                        ),
                        forall|k: int|
                            0 <= k < i ==> copies@[k].0@ == members@[k].0@ && copies@[k].1@
                                == value_tree(*members@[k].1),
                    decreases members@.len() - i,
                {
                    proof {
                        let below = whole->Object_0;
                        assert(below[i as int].1 == value_tree(*members@[i as int].1));
                        assert(decreases_to!(whole => below));
                        assert(decreases_to!(below => below[i as int]));
                        assert(decreases_to!(below[i as int] => below[i as int].1));
                    }
                    let name = members[i].0.clone();
                    let copy = Json::from_value(members[i].1);
                    copies.push((name, copy));
                    i += 1;
                }
                let tree = Json::Object(copies);
                assert(tree@->Object_0 =~= whole->Object_0);
                tree
            },
        }
    }

    /// Reads a document from text. `None` where the text is no JSON document.
    pub fn parse(text: &str) -> (document: Option<Json>)
        ensures
            match document {
                Some(tree) => parsed_document(text@) == Some(tree@),
                None => parsed_document(text@) is None,
            },
    {
        match read_value(text) {
            Ok(value) => Some(Json::from_value(&value)),
            Err(_) => None,
        }
    }
}

} // verus!
