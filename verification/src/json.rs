//! A JSON document tree. Numbers are kept as their decimal text, object
//! members in the order they are given.

use vstd::prelude::*;

verus! {

/// A JSON value.
#[derive(Debug, PartialEq)]
pub enum Json {
    Null,
    Bool(bool),
    /// The number as written in the document.
    Number(String),
    String(String),
    Array(Vec<Json>),
    /// Members in the order they are given.
    Object(Vec<(String, Json)>),
}

/// The mathematical content of a JSON value.
pub enum JsonView {
    Null,
    Bool(bool),
    Number(Seq<char>),
    String(Seq<char>),
    Array(Seq<JsonView>),
    Object(Seq<(Seq<char>, JsonView)>),
}

pub open spec fn json_view(j: Json) -> JsonView
    decreases j,
{
    match j {
        Json::Null => JsonView::Null,
        Json::Bool(b) => JsonView::Bool(b),
        Json::Number(n) => JsonView::Number(n@),
        Json::String(s) => JsonView::String(s@),
        Json::Array(a) => JsonView::Array(array_view(a@)),
        Json::Object(m) => JsonView::Object(members_view(m@)),
    }
}

pub open spec fn array_view(a: Seq<Json>) -> Seq<JsonView>
    decreases a,
{
    if a.len() == 0 {
        seq![]
    } else {
        seq![json_view(a[0])] + array_view(a.drop_first())
    }
}

pub open spec fn members_view(m: Seq<(String, Json)>) -> Seq<(Seq<char>, JsonView)>
    decreases m,
{
    if m.len() == 0 {
        seq![]
    } else {
        seq![(m[0].0@, json_view(m[0].1))] + members_view(m.drop_first())
    }
}

impl View for Json {
    type V = JsonView;

    open spec fn view(&self) -> JsonView {
        json_view(*self)
    }
}

} // verus!
