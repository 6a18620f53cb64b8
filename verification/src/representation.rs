//! Representations of entities: what a subgraph is told of an entity so
//! that it knows which one is meant.
use crate::deep_merge::{deep_merge, merged, merged_objects_have_the_keys_of_both};
use crate::error::ExecError;
use crate::json::{Json, JsonObject, JsonValue};
use crate::plan::{Field, InlineFragment, Selection};
use crate::slice::values_of;
use vstd::prelude::*;

verus! {

/// The name of the field that holds the type of an entity.
pub open spec fn typename_key() -> Seq<char> {
    "__typename"@
}

/// The value of a result that holds a document.
pub open spec fn result_value(result: Result<Json, ExecError>) -> Result<JsonValue, ExecError> {
    match result {
        Ok(document) => Ok(document@),
        Err(error) => Err(error),
    }
}

/// What `selections` take from `entity`: an object with the selected
/// fields. A null entity gives the empty object.
///
/// The selections are taken in order and the first that fails decides the
/// error.
pub open spec fn projected(entity: JsonValue, selections: Seq<Selection>) -> Result<
    JsonValue,
    ExecError,
>
    decreases selections, 2nat, 0nat,
{
    if entity is Null {
        Ok(JsonValue::Object(Map::empty()))
    } else {
        match projected_upto(entity, selections, selections.len()) {
            Ok(entries) => Ok(JsonValue::Object(entries)),
            Err(error) => Err(error),
        }
    }
}

/// What the first `n` of `selections` take from `entity`, which is not
/// null.
///
/// A field puts the value that the entity has under the field's response
/// name under that name; an entity without it is an error. Where the field
/// has selections of its own they are taken from the value, or from each
/// element where the value is an array. An inline fragment whose type
/// condition is the entity's `__typename` merges in what its own selections
/// take from the entity; any other fragment, and one without a type
/// condition, takes nothing.
pub open spec fn projected_upto(entity: JsonValue, selections: Seq<Selection>, n: nat) -> Result<
    Map<Seq<char>, JsonValue>,
    ExecError,
>
    decreases selections, 1nat, n,
{
    if n == 0 || n > selections.len() {
        Ok(Map::empty())
    } else {
        match projected_upto(entity, selections, (n - 1) as nat) {
            Err(error) => Err(error),
            Ok(entries) => match selections[n - 1] {
                Selection::Field(field) => match entity.member(field.response_key()) {
                    None => Err(ExecError::MissingField),
                    Some(JsonValue::Array(items)) => match field.selections {
                        Some(inner) => match projected_items(items, inner@, items.len()) {
                            Ok(parts) => Ok(
                                entries.insert(field.response_key(), JsonValue::Array(parts)),
                            ),
                            Err(error) => Err(error),
                        },
                        None => Ok(entries.insert(field.response_key(), JsonValue::Array(items))),
                    },
                    Some(value) => match field.selections {
                        Some(inner) => match projected(value, inner@) {
                            Ok(part) => Ok(entries.insert(field.response_key(), part)),
                            Err(error) => Err(error),
                        },
                        None => Ok(entries.insert(field.response_key(), value)),
                    },
                },
                Selection::InlineFragment(fragment) => match fragment.type_condition {
                    None => Ok(entries),
                    Some(condition) => match entity.member(typename_key()) {
                        None => Ok(entries),
                        Some(JsonValue::String(name)) => if name == condition@ {
                            match projected(entity, fragment.selections@) {
                                Ok(part) => match merged(JsonValue::Object(entries), part) {
                                    JsonValue::Object(both) => Ok(both),
                                    _ => Ok(entries),
                                },
                                Err(error) => Err(error),
                            }
                        } else {
                            Ok(entries)
                        },
                        Some(_) => Err(ExecError::TypenameNotString),
                    },
                },
            },
        }
    }
}

/// What `selections` take from each of the first `n` of `items`.
pub open spec fn projected_items(items: Seq<JsonValue>, selections: Seq<Selection>, n: nat) -> Result<
    Seq<JsonValue>,
    ExecError,
>
    decreases selections, 3nat, n,
{
    if n == 0 || n > items.len() {
        Ok(Seq::empty())
    } else {
        match (
            projected_items(items, selections, (n - 1) as nat),
            projected(items[n - 1], selections),
        ) {
            (Ok(front), Ok(last)) => Ok(front.push(last)),
            (Err(error), _) => Err(error),
            (_, Err(error)) => Err(error),
        }
    }
}

/// Once a selection has failed, so have all that come after it.
proof fn lemma_projected_upto_fails(
    entity: JsonValue,
    selections: Seq<Selection>,
    n: nat,
    m: nat,
)
    requires
        n <= m <= selections.len(),
        projected_upto(entity, selections, n) is Err,
    ensures
        projected_upto(entity, selections, m) == projected_upto(entity, selections, n),
    decreases m,
{
    if n < m {
        lemma_projected_upto_fails(entity, selections, n, (m - 1) as nat);
    }
}

/// Once an item has failed, so have all that come after it.
proof fn lemma_projected_items_fail(
    items: Seq<JsonValue>,
    selections: Seq<Selection>,
    n: nat,
    m: nat,
)
    requires
        n <= m <= items.len(),
        projected_items(items, selections, n) is Err,
    ensures
        projected_items(items, selections, m) == projected_items(items, selections, n),
    decreases m,
{
    if n < m {
        lemma_projected_items_fail(items, selections, n, (m - 1) as nat);
    }
}

/// What `selections` take from each of `items`.
fn project_items(items: &Vec<Json>, selections: &Vec<Selection>) -> (result: Result<
    Vec<Json>,
    ExecError,
>)
    ensures
        match result {
            Ok(parts) => projected_items(values_of(items@), selections@, items@.len()) == Ok::<
                Seq<JsonValue>,
                ExecError,
            >(values_of(parts@)),
            Err(error) => projected_items(values_of(items@), selections@, items@.len()) == Err::<
                Seq<JsonValue>,
                ExecError,
            >(error),
        },
    decreases selections, 3nat,
{
    let mut parts: Vec<Json> = Vec::new();
    let mut i: usize = 0;
    assert(values_of(parts@) =~= Seq::<JsonValue>::empty());
    while i < items.len()
        invariant
            i <= items@.len(),
            projected_items(values_of(items@), selections@, i as nat) == Ok::<
                Seq<JsonValue>,
                ExecError,
            >(values_of(parts@)),
        decreases items@.len() - i,
    {
        match execute_selection_set(&items[i], selections) {
            Ok(part) => {
                let ghost before = parts@;
                parts.push(part);
                assert(values_of(parts@) =~= values_of(before).push(part@));
            },
            Err(error) => {
                proof {
                    lemma_projected_items_fail(
                        values_of(items@),
                        selections@,
                        (i + 1) as nat,
                        items@.len(),
                    );
                }
                return Err(error);
            },
        }
        i += 1;
    }
    Ok(parts)
}

/// Takes from `entity` what `selections` select: the representation of the
/// entity for a subgraph that requires these fields.
pub fn execute_selection_set(entity: &Json, selections: &Vec<Selection>) -> (result: Result<
    Json,
    ExecError,
>)
    ensures
        result_value(result) == projected(entity@, selections@),
    decreases selections, 2nat,
{
    if entity.is_null() {
        return Ok(Json::Object(JsonObject::new()));
    }
    let typename = "__typename".to_owned();
    let mut result = JsonObject::new();
    let mut n: usize = 0;
    while n < selections.len()
        invariant
            n <= selections@.len(),
            !(entity@ is Null),
            typename@ == typename_key(),
            projected_upto(entity@, selections@, n as nat) == Ok::<
                Map<Seq<char>, JsonValue>,
                ExecError,
            >(result@),
        decreases selections@.len() - n,
    {
        let ghost entries = result@;
        let ghost next = (n + 1) as nat;
        match &selections[n] {
            Selection::Field(field) => {
                let name = field.response_name();
                match entity.get(name) {
                    None => {
                        proof {
                            lemma_projected_upto_fails(entity@, selections@, next, selections@.len());
                        }
                        return Err(ExecError::MissingField);
                    },
                    Some(Json::Array(items)) => {
                        let ghost elements = entity@.member(name@)->0->Array_0;
                        assert(elements =~= values_of(items@));
                        match &field.selections {
                            Some(inner) => match project_items(items, inner) {
                                Ok(parts) => {
                                    assert(Json::Array(parts)@->Array_0 =~= values_of(parts@));
                                    result.insert(name.clone(), Json::Array(parts));
                                },
                                Err(error) => {
                                    proof {
                                        lemma_projected_upto_fails(
                                            entity@,
                                            selections@,
                                            next,
                                            selections@.len(),
                                        );
                                    }
                                    return Err(error);
                                },
                            },
                            None => {
                                let copy = duplicate_items(items);
                                assert(Json::Array(copy)@->Array_0 =~= elements);
                                result.insert(name.clone(), Json::Array(copy));
                            },
                        }
                    },
                    Some(value) => match &field.selections {
                        Some(inner) => match execute_selection_set(value, inner) {
                            Ok(part) => {
                                result.insert(name.clone(), part);
                            },
                            Err(error) => {
                                proof {
                                    lemma_projected_upto_fails(
                                        entity@,
                                        selections@,
                                        next,
                                        selections@.len(),
                                    );
                                }
                                return Err(error);
                            },
                        },
                        None => {
                            result.insert(name.clone(), value.clone());
                        },
                    },
                }
            },
            Selection::InlineFragment(fragment) => {
                if let Some(condition) = &fragment.type_condition {
                    match entity.get(&typename) {
                        None => {},
                        Some(Json::String(name)) => {
                            if *name == *condition {
                                match execute_selection_set(entity, &fragment.selections) {
                                    Ok(part) => {
                                        let mut both = Json::Object(result);
                                        proof {
                                            merged_objects_have_the_keys_of_both(both@, part@);
                                        }
                                        deep_merge(&mut both, part);
                                        result = match both {
                                            Json::Object(object) => object,
                                            _ => JsonObject::new(),
                                        };
                                    },
                                    Err(error) => {
                                        proof {
                                            lemma_projected_upto_fails(
                                                entity@,
                                                selections@,
                                                next,
                                                selections@.len(),
                                            );
                                        }
                                        return Err(error);
                                    },
                                }
                            }
                        },
                        Some(_) => {
                            proof {
                                lemma_projected_upto_fails(entity@, selections@, next, selections@.len());
                            }
                            return Err(ExecError::TypenameNotString);
                        },
                    }
                }
            },
        }
        n += 1;
    }
    Ok(Json::Object(result))
}

/// Copies of `items`.
fn duplicate_items(items: &Vec<Json>) -> (copy: Vec<Json>)
    ensures
        values_of(copy@) == values_of(items@),
{
    let mut copy: Vec<Json> = Vec::new();
    let mut i: usize = 0;
    while i < items.len()
        invariant
            i <= items@.len(),
            copy@.len() == i,
            forall|j: int| 0 <= j < i ==> (#[trigger] copy@[j])@ == items@[j]@,
        decreases items@.len() - i,
    {
        copy.push(items[i].clone());
        i += 1;
    }
    assert(values_of(copy@) =~= values_of(items@));
    copy
}

} // verus!
