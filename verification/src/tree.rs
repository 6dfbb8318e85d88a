//! Structured documents: JSON and TOML.

use crate::coverage::text_option;
use crate::layout::reads_as;
use crate::text::text_eq;
use crate::written::{is_written, written_model, Written};
use vstd::prelude::*;
use vstd::utf8::encode_utf8;

verus! {

/// A document, or a part of one.
pub enum Tree {
    Null,
    Bool(bool),
    /// A whole number that is not negative, in a JSON document.
    Unsigned(u64),
    /// Any other number, or a date.
    Other,
    Text(String),
    List(Vec<Tree>),
    /// Keys and values, each key once.
    Table(Vec<(String, Tree)>),
}

/// What a document holds.
pub enum TreeModel {
    Null,
    Bool(bool),
    Unsigned(u64),
    Other,
    Text(Seq<char>),
    List(Seq<TreeModel>),
    Table(Map<Seq<char>, TreeModel>),
}

pub open spec fn tree_model(t: Tree) -> TreeModel
    decreases t, 0nat,
{
    match t {
        Tree::Null => TreeModel::Null,
        Tree::Bool(b) => TreeModel::Bool(b),
        Tree::Unsigned(n) => TreeModel::Unsigned(n),
        Tree::Other => TreeModel::Other,
        Tree::Text(s) => TreeModel::Text(s@),
        Tree::List(items) => TreeModel::List(
            Seq::new(
                items@.len(),
                |i: int|
                    if 0 <= i < items@.len() {
                        tree_model(items@[i])
                    } else {
                        TreeModel::Null
                    },
            ),
        ),
        Tree::Table(entries) => TreeModel::Table(table_model(entries@, entries@.len())),
    }
}

/// What the first entries of a table hold, of which each key has one value.
pub open spec fn table_model(entries: Seq<(String, Tree)>, n: nat) -> Map<Seq<char>, TreeModel>
    decreases entries, n,
{
    if n == 0 || n > entries.len() {
        Map::empty()
    } else {
        table_model(entries, (n - 1) as nat).insert(
            entries[n - 1].0@,
            tree_model(entries[n - 1].1),
        )
    }
}

impl View for Tree {
    type V = TreeModel;

    open spec fn view(&self) -> TreeModel {
        tree_model(*self)
    }
}

impl TreeModel {
    /// The value of a key, where this is a table that has it.
    pub open spec fn at(self, key: Seq<char>) -> Option<TreeModel> {
        if self.table().contains_key(key) {
            Some(self.table()[key])
        } else {
            None
        }
    }

    /// The entries, where this is a table.
    pub open spec fn table(self) -> Map<Seq<char>, TreeModel> {
        match self {
            TreeModel::Table(entries) => entries,
            _ => Map::empty(),
        }
    }

    pub open spec fn number(self) -> Option<u64> {
        match self {
            TreeModel::Unsigned(n) => Some(n),
            _ => None,
        }
    }

    pub open spec fn text(self) -> Option<Seq<char>> {
        match self {
            TreeModel::Text(s) => Some(s),
            _ => None,
        }
    }

    pub open spec fn truth(self) -> Option<bool> {
        match self {
            TreeModel::Bool(b) => Some(b),
            _ => None,
        }
    }

    pub open spec fn items(self) -> Option<Seq<TreeModel>> {
        match self {
            TreeModel::List(items) => Some(items),
            _ => None,
        }
    }

    /// The number that a key has.
    pub open spec fn number_at(self, key: Seq<char>) -> Option<u64> {
        match self.at(key) {
            Some(t) => t.number(),
            None => None,
        }
    }

    /// The text that a key has.
    pub open spec fn text_at(self, key: Seq<char>) -> Option<Seq<char>> {
        match self.at(key) {
            Some(t) => t.text(),
            None => None,
        }
    }

    /// The items of the list that a key has; none where there is no such list.
    pub open spec fn items_at(self, key: Seq<char>) -> Seq<TreeModel> {
        match self.at(key) {
            Some(t) => match t.items() {
                Some(items) => items,
                None => Seq::empty(),
            },
            None => Seq::empty(),
        }
    }
}

/// What the items of a list hold.
pub open spec fn item_models(items: Seq<Tree>) -> Seq<TreeModel> {
    Seq::new(items.len(), |i: int| items[i]@)
}

impl Tree {
    /// The value of a key, where this is a table that has it.
    pub fn get(&self, key: &str) -> (r: Option<&Tree>)
        ensures
            r is Some <==> self@.at(key@) is Some,
            r is Some ==> Some(r->0@) == self@.at(key@),
    {
        match self {
            Tree::Table(entries) => {
                let ghost all = self@.table();
                let mut n: usize = entries.len();
                while n > 0
                    invariant
                        n <= entries@.len(),
                        all == self@.table(),
                        self@ is Table,
                        all.contains_key(key@) <==> table_model(entries@, n as nat).contains_key(
                            key@,
                        ),
                        all.contains_key(key@) ==> all[key@] == table_model(
                            entries@,
                            n as nat,
                        )[key@],
                    decreases n,
                {
                    if text_eq(entries[n - 1].0.as_str(), key) {
                        return Some(&entries[n - 1].1);
                    }
                    n = n - 1;
                }
                None
            },
            _ => None,
        }
    }

    pub fn as_u64(&self) -> (r: Option<u64>)
        ensures
            r == self@.number(),
    {
        match self {
            Tree::Unsigned(n) => Some(*n),
            _ => None,
        }
    }

    pub fn as_str(&self) -> (r: Option<&str>)
        ensures
            text_option(r) == self@.text(),
    {
        match self {
            Tree::Text(s) => Some(s.as_str()),
            _ => None,
        }
    }

    pub fn as_bool(&self) -> (r: Option<bool>)
        ensures
            r == self@.truth(),
    {
        match self {
            Tree::Bool(b) => Some(*b),
            _ => None,
        }
    }

    pub fn as_list(&self) -> (r: Option<&[Tree]>)
        ensures
            r is Some <==> self@.items() is Some,
            r is Some ==> Some(item_models(r->0@)) == self@.items(),
    {
        match self {
            Tree::List(items) => {
                assert(self@.items() == Some(item_models(items@))) by {
                    assert(self@.items()->0 =~= item_models(items@));
                }
                Some(items.as_slice())
            },
            _ => None,
        }
    }

    /// The number that a key has.
    pub fn number_at(&self, key: &str) -> (r: Option<u64>)
        ensures
            r == self@.number_at(key@),
    {
        match self.get(key) {
            Some(t) => t.as_u64(),
            None => None,
        }
    }

    /// The text that a key has.
    pub fn text_at(&self, key: &str) -> (r: Option<&str>)
        ensures
            text_option(r) == self@.text_at(key@),
    {
        match self.get(key) {
            Some(t) => t.as_str(),
            None => None,
        }
    }

    /// The items of the list that a key has.
    pub fn items_at(&self, key: &str) -> (r: Option<&[Tree]>)
        ensures
            r is Some ==> item_models(r->0@) == self@.items_at(key@),
            r is None ==> self@.items_at(key@).len() == 0,
            r is Some <==> self@.at(key@) is Some && self@.at(key@)->0.items() is Some,
    {
        match self.get(key) {
            Some(t) => t.as_list(),
            None => None,
        }
    }
}

/// `serde_json::Value`.
#[verifier::external_type_specification]
#[verifier::external_body]
pub struct ExJsonValue(serde_json::Value);

/// `serde_json::Error`.
#[verifier::external_type_specification]
#[verifier::external_body]
pub struct ExJsonError(serde_json::Error);

/// `toml::Value`.
#[verifier::external_type_specification]
#[verifier::external_body]
pub struct ExTomlValue(toml::Value);

/// `toml::de::Error`.
#[verifier::external_type_specification]
#[verifier::external_body]
pub struct ExTomlError(toml::de::Error);

/// What a JSON document holds, if the bytes are one.
pub uninterp spec fn json_document(bytes: Seq<u8>) -> Option<TreeModel>;

/// What a JSON value holds.
pub uninterp spec fn json_contents(value: serde_json::Value) -> TreeModel;

/// What a TOML document holds, if the bytes are one.
pub uninterp spec fn toml_document(bytes: Seq<u8>) -> Option<TreeModel>;

/// What a TOML value holds.
pub uninterp spec fn toml_contents(value: toml::Value) -> TreeModel;

/// `serde_json::from_slice` reads a JSON document. What it reads depends on the bytes alone, and is
/// named here. A document of nulls, whole numbers, numbers with decimals, texts, lists and tables, in
/// which no key is there twice and which does not go deep, is read as what is written in it.
#[verifier::external_body]
fn read_json(bytes: &[u8]) -> (r: Result<serde_json::Value, serde_json::Error>)
    ensures
        r is Ok <==> json_document(bytes@) is Some,
        r is Ok ==> json_document(bytes@) == Some(json_contents(r->Ok_0)),
        forall|w: Written, after: Seq<char>| #[trigger]
            is_written(bytes@, w, after) ==> r is Ok && json_contents(r->Ok_0) == written_model(w),
{
    serde_json::from_slice(bytes)
}

/// A `serde_json::Value` as a tree, variant by variant. A number that `as_u64` does not give
/// becomes `Other`.
#[verifier::external_body]
fn tree_of_json(value: serde_json::Value) -> (r: Tree)
    ensures
        r@ == json_contents(value),
{
    match value {
        serde_json::Value::Null => Tree::Null,
        serde_json::Value::Bool(b) => Tree::Bool(b),
        serde_json::Value::Number(n) => n.as_u64().map_or(Tree::Other, Tree::Unsigned),
        serde_json::Value::String(s) => Tree::Text(s),
        serde_json::Value::Array(v) => Tree::List(v.into_iter().map(tree_of_json).collect()),
        serde_json::Value::Object(m) => {
            Tree::Table(m.into_iter().map(|(k, v)| (k, tree_of_json(v))).collect())
        },
    }
}

/// `toml::from_slice` reads a TOML document. What it reads depends on the bytes alone, and is named
/// here.
#[verifier::external_body]
fn read_toml(bytes: &[u8]) -> (r: Result<toml::Value, toml::de::Error>)
    ensures
        r is Ok <==> toml_document(bytes@) is Some,
        r is Ok ==> toml_document(bytes@) == Some(toml_contents(r->Ok_0)),
{
    toml::from_slice(bytes)
}

/// A `toml::Value` as a tree, variant by variant. Numbers and dates become `Other`.
#[verifier::external_body]
fn tree_of_toml(value: toml::Value) -> (r: Tree)
    ensures
        r@ == toml_contents(value),
{
    match value {
        toml::Value::String(s) => Tree::Text(s),
        toml::Value::Integer(_) => Tree::Other,
        toml::Value::Float(_) => Tree::Other,
        toml::Value::Boolean(b) => Tree::Bool(b),
        toml::Value::Datetime(_) => Tree::Other,
        toml::Value::Array(v) => Tree::List(v.into_iter().map(tree_of_toml).collect()),
        toml::Value::Table(m) => {
            Tree::Table(m.into_iter().map(|(k, v)| (k, tree_of_toml(v))).collect())
        },
    }
}

/// Reads a JSON document; gives none where the bytes are not one.
pub fn parse_json(bytes: &[u8]) -> (r: Option<Tree>)
    ensures
        r is Some <==> json_document(bytes@) is Some,
        r is Some ==> Some(r->0@) == json_document(bytes@),
        forall|w: Written, after: Seq<char>| #[trigger]
            is_written(bytes@, w, after) ==> r is Some && r->0@ == written_model(w),
        forall|text: Seq<char>, model: TreeModel| #[trigger]
            reads_as(text, model) && bytes@ == encode_utf8(text) ==> r is Some && r->0@ == model,
{
    match read_json(bytes) {
        Ok(value) => Some(tree_of_json(value)),
        Err(_) => None,
    }
}

/// Reads a TOML document; gives none where the bytes are not one.
pub fn parse_toml(bytes: &[u8]) -> (r: Option<Tree>)
    ensures
        r is Some <==> toml_document(bytes@) is Some,
        r is Some ==> Some(r->0@) == toml_document(bytes@),
{
    match read_toml(bytes) {
        Ok(value) => Some(tree_of_toml(value)),
        Err(_) => None,
    }
}

} // verus!
