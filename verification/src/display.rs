//! The display tree: a bencoded term as text, numbers, arrays and objects.

use vstd::prelude::*;
use vstd::utf8::{decode_utf8, valid_utf8};
use crate::order::{canonical_order, indices, keys_of, sorted_order};
use crate::outside::text_of;
use crate::value::{items_view, pairs_view, Term, Value};

verus! {

/// One member of an object, as a mathematical value.
pub type Member = (Seq<char>, Json);

/// The mathematical model of a display tree.
pub ghost enum Json {
    Text(Seq<char>),
    Number(i64),
    Array(Seq<Json>),
    Object(Seq<Member>),
}

/// A tree that can be shown as JSON.
#[derive(Debug, PartialEq, Eq)]
pub enum DisplayValue {
    /// A string.
    String(String),
    /// A whole number.
    Number(i64),
    /// An array.
    Array(Vec<DisplayValue>),
    /// An object: its members, the names ascending.
    Object(Vec<(String, DisplayValue)>),
}

/// Why a term has no display tree.
#[derive(Debug, Clone, Copy, PartialEq, Eq, Structural)]
pub enum ProjectionError {
    /// A byte string, or a key of a dictionary, is not valid UTF-8.
    InvalidText,
}

/// The models of the elements of an array, in order.
pub open spec fn elements_view(elements: Seq<DisplayValue>) -> Seq<Json>
    decreases elements,
{
    Seq::new(
        elements.len(),
        |i: int|
            if 0 <= i < elements.len() {
                elements[i]@
            } else {
                Json::Number(0)
            },
    )
}

/// The models of the members of an object, in order.
pub open spec fn members_view(members: Seq<(String, DisplayValue)>) -> Seq<Member>
    decreases members,
{
    Seq::new(
        members.len(),
        |i: int|
            if 0 <= i < members.len() {
                (members[i].0@, members[i].1@)
            } else {
                (Seq::empty(), Json::Number(0))
            },
    )
}

impl View for DisplayValue {
    type V = Json;

    open spec fn view(&self) -> Json
        decreases self,
    {
        match self {
            DisplayValue::String(s) => Json::Text(s@),
            DisplayValue::Number(n) => Json::Number(*n),
            DisplayValue::Array(elements) => Json::Array(elements_view(elements@)),
            DisplayValue::Object(members) => Json::Object(members_view(members@)),
        }
    }
}

/// Whether a term has a display tree: whether every byte string in it, and
/// every key that counts, is valid UTF-8.
pub open spec fn displayable(t: Term) -> bool
    decreases t,
{
    match t {
        Term::Bytes(b) => valid_utf8(b),
        Term::Int(_) => true,
        Term::List(items) => forall|i: int|
            0 <= i < items.len() ==> displayable(#[trigger] items[i]),
        Term::Dict(pairs) => {
            let order = canonical_order(keys_of(pairs), pairs.len());
            forall|i: int|
                0 <= i < order.len() && 0 <= #[trigger] order[i] < pairs.len() ==> valid_utf8(
                    pairs[order[i]].0,
                ) && displayable(pairs[order[i]].1)
        },
    }
}

/// The display tree of a term that has one. A byte string becomes the text
/// that it encodes, an integer the same number, a list the array of its
/// items. A dictionary becomes an object whose members are the pairs that
/// count, in canonical order.
pub open spec fn display_of(t: Term) -> Json
    decreases t,
{
    match t {
        Term::Bytes(b) => Json::Text(decode_utf8(b)),
        Term::Int(i) => Json::Number(i),
        Term::List(items) => Json::Array(
            Seq::new(
                items.len(),
                |i: int|
                    if 0 <= i < items.len() {
                        display_of(items[i])
                    } else {
                        Json::Number(0)
                    },
            ),
        ),
        Term::Dict(pairs) => {
            let order = canonical_order(keys_of(pairs), pairs.len());
            Json::Object(
                Seq::new(
                    order.len(),
                    |i: int|
                        if 0 <= i < order.len() && 0 <= order[i] < pairs.len() {
                            (decode_utf8(pairs[order[i]].0), display_of(pairs[order[i]].1))
                        } else {
                            (Seq::empty(), Json::Number(0))
                        },
                ),
            )
        },
    }
}

/// The display tree of a term, or the reason why it has none.
pub open spec fn project(t: Term) -> Result<Json, ProjectionError> {
    if displayable(t) {
        Ok(display_of(t))
    } else {
        Err(ProjectionError::InvalidText)
    }
}

/// What `to_display_tree` gave, as a model.
pub open spec fn displayed(r: Result<DisplayValue, ProjectionError>) -> Result<
    Json,
    ProjectionError,
> {
    match r {
        Ok(d) => Ok(d@),
        Err(e) => Err(e),
    }
}

/// The display tree of `value`.
///
/// Every 64-bit integer is a number of the display tree, so an integer
/// never fails. A byte string or a key that is not valid UTF-8 fails with
/// `InvalidText`. Of several pairs with one key only the last counts.
#[verifier::loop_isolation(false)]
pub fn to_display_tree(value: &Value) -> (r: Result<DisplayValue, ProjectionError>)
    ensures
        displayed(r) == project(value@),
    decreases value,
{
    match value {
        Value::Bytes(b) => match text_of(b.clone()) {
            Some(text) => Ok(DisplayValue::String(text)),
            None => Err(ProjectionError::InvalidText),
        },
        Value::Int(i) => Ok(DisplayValue::Number(*i)),
        Value::List(items) => {
            let ghost terms = items_view(items@);
            let mut elements: Vec<DisplayValue> = Vec::new();
            let mut i: usize = 0;
            while i < items.len()
                invariant
                    i <= items.len(),
                    elements.len() == i,
                    forall|j: int| 0 <= j < i ==> displayable(#[trigger] terms[j]),
                    forall|j: int| 0 <= j < i ==> (#[trigger] elements[j])@ == display_of(terms[j]),
                decreases items.len() - i,
            {
                match to_display_tree(&items[i]) {
                    Err(e) => {
                        assert(!displayable(terms[i as int]));
                        return Err(e);
                    },
                    Ok(element) => {
                        elements.push(element);
                    },
                }
                i += 1;
            }
            proof {
                assert(elements_view(elements@) =~= display_of(value@)->Array_0);
            }
            Ok(DisplayValue::Array(elements))
        },
        Value::Dict(pairs) => {
            let ghost terms = pairs_view(pairs@);
            let ghost spec_order = canonical_order(keys_of(terms), pairs.len() as nat);
            let order = sorted_order(pairs);
            let mut members: Vec<(String, DisplayValue)> = Vec::new();
            let mut i: usize = 0;
            while i < order.len()
                invariant
                    i <= order.len(),
                    members.len() == i,
                    forall|j: int|
                        0 <= j < i ==> valid_utf8(terms[#[trigger] spec_order[j]].0) && displayable(
                            terms[spec_order[j]].1,
                        ),
                    forall|j: int|
                        0 <= j < i ==> (#[trigger] members[j]).0@ == decode_utf8(
                            terms[spec_order[j]].0,
                        ) && members[j].1@ == display_of(terms[spec_order[j]].1),
                decreases order.len() - i,
            {
                let at: usize = order[i];
                proof {
                    assert(indices(order@)[i as int] == at as int);
                    assert(spec_order[i as int] == at as int);
                }
                let name = match text_of(pairs[at].0.clone()) {
                    Some(text) => text,
                    None => {
                        return Err(ProjectionError::InvalidText);
                    },
                };
                match to_display_tree(&pairs[at].1) {
                    Err(e) => {
                        return Err(e);
                    },
                    Ok(member) => {
                        members.push((name, member));
                    },
                }
                i += 1;
            }
            proof {
                assert forall|j: int| 0 <= j < order.len() implies 0 <= #[trigger] spec_order[j]
                    < pairs.len() by {
                    assert(indices(order@)[j] == order[j] as int);
                }
                assert(members_view(members@) =~= display_of(value@)->Object_0);
            }
            Ok(DisplayValue::Object(members))
        },
    }
}

} // verus!
