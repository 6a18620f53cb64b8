//! Flatten nodes: entities are fetched for the part of the response that a
//! path selects, and what comes back is written to where that part stands.
use crate::error::ExecError;
use crate::fetch::{
    begin_entities_fetch, entities_call, entities_merged, entities_of, finish_entities_fetch,
    places_of, received_entities, request_variables, CallValue, Operation,
};
use crate::deep_merge::merged;
use crate::handle::{
    apart, flat, handles_are_apart, handles_point_into_the_document, lemma_merged_at_apart,
    lemma_merged_at_place, merge_at, merged_at, narrowed, place_value, resolved, slices_of, whole,
    JsonSliceValue, SliceValue, Step, StepValue,
};
use crate::json::{Json, JsonValue};
use crate::plan::{FlattenNode, PlanNode};
use crate::response::{errors_of, merged_errors, GraphQLResponse, RequestContext};
use crate::slice::{checked_slice_at_path, path_keys, sliced, values_of};
use vstd::prelude::*;

verus! {

/// The place that a handle remembers; nothing, and a list, remember none.
pub open spec fn place_of(leaf: SliceValue) -> Option<Seq<StepValue>> {
    match leaf {
        SliceValue::Value(_, place) => Some(place),
        _ => None,
    }
}

/// The places that a list of handles remembers.
pub open spec fn places_in(leaves: Seq<SliceValue>) -> Seq<Option<Seq<StepValue>>> {
    Seq::new(leaves.len(), |i: int| place_of(leaves[i]))
}

/// The value of a list of places.
pub open spec fn place_values(places: Seq<Option<Vec<Step>>>) -> Seq<Option<Seq<StepValue>>> {
    Seq::new(
        places.len(),
        |i: int|
            match places[i] {
                Some(place) => Some(place_value(place@)),
                None => None,
            },
    )
}

/// `document` after the first `n` of `children` were written back, each
/// merged into the value at the place of the same number. A child whose
/// place is none changes nothing.
pub open spec fn written_back(
    document: JsonValue,
    places: Seq<Option<Seq<StepValue>>>,
    children: Seq<JsonValue>,
    n: nat,
) -> JsonValue
    decreases n,
{
    if n == 0 || n > places.len() || n > children.len() {
        document
    } else {
        let before = written_back(document, places, children, (n - 1) as nat);
        match places[n - 1] {
            Some(place) => merged_at(before, place, children[n - 1]),
            None => before,
        }
    }
}

/// The smaller of two lengths.
pub open spec fn shorter(a: nat, b: nat) -> nat {
    if a <= b {
        a
    } else {
        b
    }
}

/// The data of a parent response after the data of the child response of a
/// flatten node was merged back along `path`, or the error that stops it.
///
/// Null data in the child changes nothing. Else the handles that the path
/// leaves of the parent's data are paired, in order, with the elements of
/// the child's data, or with the child's data itself where that is an
/// object, and each is merged into the value at its handle's place.
pub open spec fn flattened_back(parent: JsonValue, child: JsonValue, path: Seq<Seq<char>>) -> Result<
    JsonValue,
    ExecError,
> {
    if child is Null {
        Ok(parent)
    } else if narrowed(whole(parent, Seq::empty()), path) is None {
        Err(ExecError::PathMismatch)
    } else if entities_of(child) is None {
        Err(ExecError::UnexpectedData)
    } else {
        let places = places_in(flat(narrowed(whole(parent, Seq::empty()), path)->0));
        let children = entities_of(child)->0;
        Ok(written_back(parent, places, children, shorter(places.len(), children.len())))
    }
}

/// The places of the handles that `path` leaves of `document`, or `None`
/// where the path cannot be followed.
fn places_along(document: &Json, path: &[String]) -> (places: Option<Vec<Option<Vec<Step>>>>)
    ensures
        match places {
            Some(list) => narrowed(whole(document@, Seq::empty()), path_keys(path@)) is Some
                && place_values(list@) == places_in(
                flat(narrowed(whole(document@, Seq::empty()), path_keys(path@))->0),
            ),
            None => narrowed(whole(document@, Seq::empty()), path_keys(path@)) is None,
        },
{
    match JsonSliceValue::new(document).checked_slice_by_path(path) {
        Some(slice) => {
            let leaves = slice.flatten();
            let ghost handles = slices_of(leaves@);
            let mut places: Vec<Option<Vec<Step>>> = Vec::new();
            for leaf in it: leaves
                invariant
                    it.seq() == leaves@,
                    handles == slices_of(leaves@),
                    places@.len() == it.index(),
                    forall|j: int|
                        0 <= j < places@.len() ==> (#[trigger] place_values(places@)[j])
                            == place_of(handles[j]),
            {
                let ghost before = places@;
                let ghost n = it.index() as int;
                assert(handles[n] == leaf@);
                let place = match leaf {
                    JsonSliceValue::Value { value, place } => Some(place),
                    _ => None,
                };
                places.push(place);
                assert forall|j: int| 0 <= j < places@.len() implies (#[trigger] place_values(
                    places@,
                )[j]) == place_of(handles[j]) by {
                    if j < n {
                        assert(place_values(before)[j] == place_of(handles[j]));
                        assert(places@[j] == before[j]);
                    }
                }
            }
            assert(place_values(places@) =~= places_in(handles));
            Some(places)
        },
        None => None,
    }
}

/// Merges the response of the fetch inside a flatten node back into the
/// response that the node works on: the errors of the child are added to
/// those of the parent, and its data is written to where `path` leads. On
/// an error the parent stays as it was.
pub fn merge_flattend_responses(
    parent_response: &mut GraphQLResponse,
    child_response: GraphQLResponse,
    path: &[String],
) -> (result: Result<(), ExecError>)
    ensures
        match result {
            Ok(()) => {
                &&& Ok::<JsonValue, ExecError>(final(parent_response).data@) == flattened_back(
                    old(parent_response).data@,
                    child_response.data@,
                    path_keys(path@),
                )
                &&& errors_of(final(parent_response).errors) == merged_errors(
                    errors_of(old(parent_response).errors),
                    errors_of(child_response.errors),
                )
            },
            Err(error) => {
                &&& Err::<JsonValue, ExecError>(error) == flattened_back(
                    old(parent_response).data@,
                    child_response.data@,
                    path_keys(path@),
                )
                &&& *final(parent_response) == *old(parent_response)
            },
        },
{
    let GraphQLResponse { data, errors } = child_response;
    if data.is_null() {
        parent_response.merge_errors(errors);
        return Ok(());
    }
    let places = match places_along(&parent_response.data, path) {
        Some(places) => places,
        None => {
            return Err(ExecError::PathMismatch);
        },
    };
    let ghost child = data@;
    let children = match data {
        Json::Array(children) => {
            assert(values_of(children@) =~= child->Array_0);
            children
        },
        Json::Object(object) => {
            let mut one: Vec<Json> = Vec::new();
            one.push(Json::Object(object));
            assert(values_of(one@) =~= seq![child]);
            one
        },
        _ => {
            return Err(ExecError::UnexpectedData);
        },
    };
    parent_response.merge_errors(errors);
    let ghost before = parent_response.data@;
    let ghost marks = place_values(places@);
    let ghost given = values_of(children@);
    let mut i: usize = 0;
    assert(children@.len() == children.len());
    for child in it: children
        invariant
            it.seq() == children@,
            i == it.index(),
            children@.len() <= usize::MAX,
            given == values_of(children@),
            marks == place_values(places@),
            errors_of(parent_response.errors) == merged_errors(
                errors_of(old(parent_response).errors),
                errors_of(errors),
            ),
            parent_response.data@ == written_back(
                before,
                marks,
                given,
                shorter(i as nat, places@.len()),
            ),
    {
        if i < places.len() {
            assert(given[i as int] == child@);
            assert(marks[i as int] == match places@[i as int] {
                Some(place) => Some(place_value(place@)),
                None => None,
            });
            match &places[i] {
                Some(place) => {
                    merge_at(&mut parent_response.data, place.as_slice(), child);
                },
                None => {},
            }
        }
        i += 1;
    }
    Ok(())
}

/// A call for the entities of a flatten node, ready to be sent, with what
/// is needed to take in the answer.
#[derive(Debug)]
pub struct FlattenCall {
    pub operation: Operation,
    /// The part of the response that the entities are fetched for.
    pub inner_response: GraphQLResponse,
    pub representations_to_entity: Vec<usize>,
}

/// The value of a [`FlattenCall`].
pub struct FlattenCallValue {
    pub call: CallValue,
    pub inner: JsonValue,
}

/// The call that a flatten node makes for the response as it stands, `None`
/// where there is nothing to ask for, or the error that stops it.
pub open spec fn flatten_call(flatten: FlattenNode, data: JsonValue, variables: JsonValue) -> Result<
    Option<FlattenCallValue>,
    ExecError,
> {
    match sliced(data, path_keys(flatten.path@)) {
        None => Err(ExecError::PathMismatch),
        Some(inner) => match *flatten.node {
            PlanNode::Fetch(fetch) => match entities_call(fetch, inner, variables) {
                Err(error) => Err(error),
                Ok(None) => Ok(None),
                Ok(Some(call)) => Ok(Some(FlattenCallValue { call, inner })),
            },
            _ => Err(ExecError::FlattenWithoutFetch),
        },
    }
}

/// The value of what `begin_flatten` returns.
pub open spec fn flatten_call_value(call: Result<Option<FlattenCall>, ExecError>) -> Result<
    Option<FlattenCallValue>,
    ExecError,
> {
    match call {
        Ok(Some(made)) => Ok(
            Some(
                FlattenCallValue {
                    call: CallValue {
                        service_name: made.operation.service_name@,
                        operation: made.operation.operation@,
                        variables: made.operation.variables@,
                        places: places_of(made.representations_to_entity@),
                    },
                    inner: made.inner_response.data@,
                },
            ),
        ),
        Ok(None) => Ok(None),
        Err(error) => Err(error),
    }
}

/// The first half of a flatten node: the part of the response that its path
/// selects becomes a response of its own, and the call for the entities of
/// that response is made ready. `None` says that there is nothing to ask
/// for, and the node is done.
pub fn begin_flatten(
    flatten: &FlattenNode,
    response: &GraphQLResponse,
    context: &RequestContext,
) -> (call: Result<Option<FlattenCall>, ExecError>)
    ensures
        flatten_call_value(call) == flatten_call(
            *flatten,
            response.data@,
            request_variables(*context),
        ),
        call matches Ok(Some(made)) ==> made.inner_response.errors is None,
{
    let inner = match checked_slice_at_path(&response.data, flatten.path.as_slice()) {
        Some(inner) => inner,
        None => {
            return Err(ExecError::PathMismatch);
        },
    };
    let inner_response = GraphQLResponse { data: inner, errors: None };
    match &*flatten.node {
        PlanNode::Fetch(fetch) => match begin_entities_fetch(fetch, &inner_response, context) {
            Ok(Some(call)) => Ok(
                Some(
                    FlattenCall {
                        operation: call.operation,
                        inner_response,
                        representations_to_entity: call.representations_to_entity,
                    },
                ),
            ),
            Ok(None) => Ok(None),
            Err(error) => Err(error),
        },
        _ => Err(ExecError::FlattenWithoutFetch),
    }
}

/// The response that a flatten node works on after the answer to its call
/// was taken in, or the error that stops it: the entities that came back
/// are merged into the inner response, and the inner response is merged
/// back along the path.
pub open spec fn flatten_result(
    parent: JsonValue,
    path: Seq<Seq<char>>,
    inner: JsonValue,
    places: Seq<int>,
    received: JsonValue,
) -> Result<JsonValue, ExecError> {
    match received_entities(received) {
        None => Err(ExecError::MissingEntities),
        Some(entities) => if entities.len() < places.len() {
            Err(ExecError::MissingEntities)
        } else {
            flattened_back(parent, entities_merged(inner, places, entities, places.len()), path)
        },
    }
}

/// The second half of a flatten node: takes in the answer to the call that
/// `begin_flatten` made for `inner_response`. The errors of the answer are
/// added to those of the inner response, and these to those of the
/// response. On an error the response stays as it was.
pub fn finish_flatten(
    flatten: &FlattenNode,
    inner_response: GraphQLResponse,
    representations_to_entity: &Vec<usize>,
    response: &mut GraphQLResponse,
    received: GraphQLResponse,
) -> (result: Result<(), ExecError>)
    ensures
        match result {
            Ok(()) => {
                &&& Ok::<JsonValue, ExecError>(final(response).data@) == flatten_result(
                    old(response).data@,
                    path_keys(flatten.path@),
                    inner_response.data@,
                    places_of(representations_to_entity@),
                    received.data@,
                )
                &&& errors_of(final(response).errors) == merged_errors(
                    errors_of(old(response).errors),
                    merged_errors(errors_of(inner_response.errors), errors_of(received.errors)),
                )
            },
            Err(error) => {
                &&& Err::<JsonValue, ExecError>(error) == flatten_result(
                    old(response).data@,
                    path_keys(flatten.path@),
                    inner_response.data@,
                    places_of(representations_to_entity@),
                    received.data@,
                )
                &&& *final(response) == *old(response)
            },
        },
{
    let mut inner_response = inner_response;
    match finish_entities_fetch(&mut inner_response, representations_to_entity, received) {
        Ok(()) => merge_flattend_responses(response, inner_response, flatten.path.as_slice()),
        Err(error) => Err(error),
    }
}

proof fn lemma_apart_is_mutual(one: Seq<StepValue>, other: Seq<StepValue>)
    requires
        apart(one, other),
    ensures
        apart(other, one),
{
    let k = choose|k: int|
        0 <= k < one.len() && k < other.len() && #[trigger] one.take(k) == other.take(k)
            && one[k] is Index && other[k] is Index && one[k] != other[k];
    assert(other.take(k) == one.take(k));
}

/// What stands at the place of each handle once the first `n` children are
/// written back, where the handles show what stands at their places and
/// are apart.
proof fn lemma_written_back(
    document: JsonValue,
    leaves: Seq<SliceValue>,
    children: Seq<JsonValue>,
    n: nat,
)
    requires
        n <= leaves.len(),
        n <= children.len(),
        forall|i: int|
            0 <= i < leaves.len() && (#[trigger] leaves[i]) is Value ==> resolved(
                document,
                leaves[i]->Value_1,
            ) == Some(leaves[i]->Value_0),
        forall|i: int, j: int|
            0 <= i < j < leaves.len() && (#[trigger] leaves[i]) is Value && (#[trigger] leaves[j])
                is Value ==> apart(leaves[i]->Value_1, leaves[j]->Value_1),
    ensures
        forall|i: int|
            0 <= i < leaves.len() && (#[trigger] leaves[i]) is Value ==> resolved(
                written_back(document, places_in(leaves), children, n),
                leaves[i]->Value_1,
            ) == Some(
                if i < n {
                    merged(leaves[i]->Value_0, children[i])
                } else {
                    leaves[i]->Value_0
                },
            ),
    decreases n,
{
    if n > 0 {
        let m = n - 1;
        lemma_written_back(document, leaves, children, m as nat);
        let before = written_back(document, places_in(leaves), children, m as nat);
        let after = written_back(document, places_in(leaves), children, n);
        assert(places_in(leaves)[m] == place_of(leaves[m]));
        if leaves[m] is Value {
            let place = leaves[m]->Value_1;
            assert(after == merged_at(before, place, children[m]));
            lemma_merged_at_place(before, place, children[m]);
            assert forall|i: int|
                0 <= i < leaves.len() && (#[trigger] leaves[i]) is Value implies resolved(
                after,
                leaves[i]->Value_1,
            ) == Some(
                if i < n {
                    merged(leaves[i]->Value_0, children[i])
                } else {
                    leaves[i]->Value_0
                },
            ) by {
                if i != m {
                    if i < m {
                        assert(apart(leaves[i]->Value_1, leaves[m]->Value_1));
                        lemma_apart_is_mutual(leaves[i]->Value_1, place);
                    } else {
                        assert(apart(leaves[m]->Value_1, leaves[i]->Value_1));
                    }
                    lemma_merged_at_apart(before, place, leaves[i]->Value_1, children[m]);
                }
            }
        } else {
            assert(after == before);
        }
    }
}

/// Each child reaches its own place and no other. Once the data of a child
/// response is merged back, the value at the place of each handle that has
/// a child is that value merged with this child, whatever was written for
/// the other children.
pub proof fn written_back_children_reach_their_places(
    parent: JsonValue,
    child: JsonValue,
    path: Seq<Seq<char>>,
    i: int,
)
    requires
        !(child is Null),
        flattened_back(parent, child, path) is Ok,
        0 <= i < flat(narrowed(whole(parent, Seq::empty()), path)->0).len(),
        i < entities_of(child)->0.len(),
        flat(narrowed(whole(parent, Seq::empty()), path)->0)[i] is Value,
    ensures
        resolved(
            flattened_back(parent, child, path)->Ok_0,
            flat(narrowed(whole(parent, Seq::empty()), path)->0)[i]->Value_1,
        ) == Some(
            merged(
                flat(narrowed(whole(parent, Seq::empty()), path)->0)[i]->Value_0,
                entities_of(child)->0[i],
            ),
        ),
{
    let leaves = flat(narrowed(whole(parent, Seq::empty()), path)->0);
    let children = entities_of(child)->0;
    assert(places_in(leaves).len() == leaves.len());
    assert forall|a: int| 0 <= a < leaves.len() && (#[trigger] leaves[a]) is Value implies resolved(
        parent,
        leaves[a]->Value_1,
    ) == Some(leaves[a]->Value_0) by {
        handles_point_into_the_document(parent, path, a);
    }
    assert forall|a: int, b: int|
        0 <= a < b < leaves.len() && (#[trigger] leaves[a]) is Value && (#[trigger] leaves[b])
            is Value implies apart(leaves[a]->Value_1, leaves[b]->Value_1) by {
        handles_are_apart(parent, path, a, b);
    }
    lemma_written_back(parent, leaves, children, shorter(leaves.len(), children.len()));
}

} // verus!
