//! The two halves of a call to a subgraph: what is sent, and what is done
//! with the answer.
use crate::deep_merge::{deep_merge, merged, merged_takes_the_scalars_of_the_source};
use crate::error::ExecError;
use crate::json::{find_key, has_key, lemma_members_value, Json, JsonObject, JsonValue};
use crate::plan::{FetchNode, Selection};
use crate::representation::{execute_selection_set, projected, typename_key};
use crate::response::{errors_of, merged_errors, GraphQLResponse, RequestContext};
use crate::slice::values_of;
use vstd::prelude::*;

verus! {

/// The name of the variable that carries the representations.
pub open spec fn representations_key() -> Seq<char> {
    "representations"@
}

/// The name of the field that carries the entities.
pub open spec fn entities_key() -> Seq<char> {
    "_entities"@
}

/// One call to a subgraph, ready to be sent.
#[derive(Debug)]
pub struct Operation {
    pub service_name: String,
    pub operation: String,
    pub variables: JsonObject,
}

/// The variables of the request, if it has any.
pub open spec fn request_variables(context: RequestContext) -> JsonValue {
    match context.graphql_request.variables {
        Some(variables) => variables@,
        None => JsonValue::Null,
    }
}

/// The variables that a fetch forwards: those of its usages that the
/// request has, each with the value that the request gives it.
pub open spec fn forwarded(usages: Seq<String>, variables: JsonValue) -> Map<Seq<char>, JsonValue> {
    Map::new(
        |k: Seq<char>|
            variables.member(k) is Some && exists|i: int|
                0 <= i < usages.len() && (#[trigger] usages[i])@ == k,
        |k: Seq<char>| variables.member(k)->0,
    )
}

/// The variables of the request that `usages` names. A name that the
/// request does not have is passed over.
pub fn forward_variables(usages: &Vec<String>, context: &RequestContext) -> (variables: JsonObject)
    ensures
        variables@ == forwarded(usages@, request_variables(*context)),
{
    let mut variables = JsonObject::new();
    let ghost given = request_variables(*context);
    if let Some(known) = &context.graphql_request.variables {
        let mut i: usize = 0;
        assert(variables@ =~= forwarded(usages@.take(0), given));
        while i < usages.len()
            invariant
                i <= usages@.len(),
                given == known@,
                variables@ == forwarded(usages@.take(i as int), given),
            decreases usages@.len() - i,
        {
            let ghost before = variables@;
            let name = &usages[i];
            match known.get(name) {
                Some(value) => {
                    variables.insert(name.clone(), value.clone());
                },
                None => {},
            }
            proof {
                let next = usages@.take(i + 1);
                assert(next[i as int] == usages@[i as int]);
                assert forall|k: Seq<char>| #[trigger]
                    variables@.contains_key(k) == forwarded(next, given).contains_key(k) by {
                    if forwarded(next, given).contains_key(k) {
                        let j = choose|j: int| 0 <= j < next.len() && (#[trigger] next[j])@ == k;
                        if j < i {
                            assert(usages@.take(i as int)[j]@ == k);
                        }
                    }
                    if before.contains_key(k) {
                        let j = choose|j: int|
                            0 <= j < i && (#[trigger] usages@.take(i as int)[j])@ == k;
                        assert(next[j]@ == k);
                    }
                }
                assert(variables@ =~= forwarded(next, given));
            }
            i += 1;
        }
        assert(usages@.take(usages@.len() as int) =~= usages@);
    } else {
        assert(variables@ =~= forwarded(usages@, given));
    }
    variables
}

/// The call that a fetch at the root of a plan makes: the operation of the
/// node with the variables that it forwards. A node that requires fields of
/// entities is refused: it belongs inside a flatten node.
pub fn begin_fetch(fetch: &FetchNode, context: &RequestContext) -> (call: Result<
    Operation,
    ExecError,
>)
    ensures
        match call {
            Ok(operation) => fetch.requires is None && operation.service_name@
                == fetch.service_name@ && operation.operation@ == fetch.operation@
                && operation.variables@ == forwarded(
                fetch.variable_usages@,
                request_variables(*context),
            ),
            Err(error) => fetch.requires is Some && error == ExecError::UnexpectedRequires,
        },
{
    if fetch.requires.is_some() {
        return Err(ExecError::UnexpectedRequires);
    }
    Ok(
        Operation {
            service_name: fetch.service_name.clone(),
            operation: fetch.operation.clone(),
            variables: forward_variables(&fetch.variable_usages, context),
        },
    )
}

/// Whether a projection can stand for an entity: it is an object that says
/// of which type the entity is.
pub open spec fn is_representation(value: JsonValue) -> bool {
    value.member(typename_key()) is Some
}

/// The entities that `data` holds: the elements of an array, or the one
/// object. Anything else holds none.
pub open spec fn entities_of(data: JsonValue) -> Option<Seq<JsonValue>> {
    match data {
        JsonValue::Array(items) => Some(items),
        JsonValue::Object(_) => Some(seq![data]),
        _ => None,
    }
}

/// The representations of the first `n` of `entities`, and for each
/// representation the place of its entity in the list. An entity whose
/// projection cannot stand for it gives no representation.
pub open spec fn represented(entities: Seq<JsonValue>, selections: Seq<Selection>, n: nat) -> Result<
    (Seq<JsonValue>, Seq<int>),
    ExecError,
>
    decreases n,
{
    if n == 0 || n > entities.len() {
        Ok((Seq::empty(), Seq::empty()))
    } else {
        match represented(entities, selections, (n - 1) as nat) {
            Err(error) => Err(error),
            Ok((representations, places)) => match projected(entities[n - 1], selections) {
                Err(error) => Err(error),
                Ok(projection) => if is_representation(projection) {
                    Ok((representations.push(projection), places.push(n - 1)))
                } else {
                    Ok((representations, places))
                },
            },
        }
    }
}

/// The places of a list of indices, as integers.
pub open spec fn places_of(indices: Seq<usize>) -> Seq<int> {
    Seq::new(indices.len(), |i: int| indices[i] as int)
}

/// Once an entity has failed, so have all that come after it.
proof fn lemma_represented_fails(
    entities: Seq<JsonValue>,
    selections: Seq<Selection>,
    n: nat,
    m: nat,
)
    requires
        n <= m <= entities.len(),
        represented(entities, selections, n) is Err,
    ensures
        represented(entities, selections, m) == represented(entities, selections, n),
    decreases m,
{
    if n < m {
        lemma_represented_fails(entities, selections, n, (m - 1) as nat);
    }
}

/// There is one place for each representation and no more representations
/// than entities. The places go upwards through the list of entities, and
/// each representation is the projection of the entity at its place.
pub proof fn representations_match_entities(
    entities: Seq<JsonValue>,
    selections: Seq<Selection>,
    n: nat,
)
    requires
        n <= entities.len(),
        represented(entities, selections, n) is Ok,
    ensures
        ({
            let (representations, places) = represented(entities, selections, n)->Ok_0;
            &&& representations.len() == places.len()
            &&& places.len() <= n
            &&& forall|i: int| 0 <= i < places.len() ==> 0 <= #[trigger] places[i] < n
            &&& forall|i: int, j: int| 0 <= i < j < places.len() ==> places[i] < places[j]
            &&& forall|i: int|
                0 <= i < places.len() ==> is_representation(#[trigger] representations[i])
                    && projected(entities[places[i]], selections) == Ok::<JsonValue, ExecError>(
                    representations[i],
                )
        }),
    decreases n,
{
    if n > 0 {
        representations_match_entities(entities, selections, (n - 1) as nat);
    }
}

/// The representations of the entities that `data` holds, and the place of
/// the entity of each.
pub fn represent_entities(data: &Json, selections: &Vec<Selection>) -> (result: Result<
    (Vec<Json>, Vec<usize>),
    ExecError,
>)
    ensures
        match result {
            Ok((representations, places)) => entities_of(data@) is Some && represented(
                entities_of(data@)->0,
                selections@,
                entities_of(data@)->0.len(),
            ) == Ok::<(Seq<JsonValue>, Seq<int>), ExecError>(
                (values_of(representations@), places_of(places@)),
            ),
            Err(error) => if entities_of(data@) is Some {
                represented(entities_of(data@)->0, selections@, entities_of(data@)->0.len())
                    == Err::<(Seq<JsonValue>, Seq<int>), ExecError>(error)
            } else {
                error == ExecError::UnexpectedData
            },
        },
{
    let typename = "__typename".to_owned();
    let mut representations: Vec<Json> = Vec::new();
    let mut places: Vec<usize> = Vec::new();
    assert(values_of(representations@) =~= Seq::<JsonValue>::empty());
    assert(places_of(places@) =~= Seq::<int>::empty());
    match data {
        Json::Array(items) => {
            let ghost entities = entities_of(data@)->0;
            let mut i: usize = 0;
            while i < items.len()
                invariant
                    i <= items@.len(),
                    typename@ == typename_key(),
                    entities_of(data@) == Some(entities),
                    entities.len() == items@.len(),
                    forall|j: int| 0 <= j < items@.len() ==> entities[j] == (#[trigger] items@[j])@,
                    represented(entities, selections@, i as nat) == Ok::<
                        (Seq<JsonValue>, Seq<int>),
                        ExecError,
                    >((values_of(representations@), places_of(places@))),
                decreases items@.len() - i,
            {
                match execute_selection_set(&items[i], selections) {
                    Ok(projection) => {
                        if projection.get(&typename).is_some() {
                            let ghost known = representations@;
                            let ghost marked = places@;
                            representations.push(projection);
                            places.push(i);
                            assert(values_of(representations@) =~= values_of(known).push(
                                projection@,
                            ));
                            assert(places_of(places@) =~= places_of(marked).push(i as int));
                        }
                    },
                    Err(error) => {
                        proof {
                            lemma_represented_fails(
                                entities,
                                selections@,
                                (i + 1) as nat,
                                entities.len(),
                            );
                        }
                        return Err(error);
                    },
                }
                i += 1;
            }
            Ok((representations, places))
        },
        Json::Object(_) => {
            let ghost entities = entities_of(data@)->0;
            assert(represented(entities, selections@, 0) == Ok::<
                (Seq<JsonValue>, Seq<int>),
                ExecError,
            >((Seq::empty(), Seq::empty())));
            match execute_selection_set(data, selections) {
                Ok(projection) => {
                    if projection.get(&typename).is_some() {
                        representations.push(projection);
                        places.push(0);
                        assert(values_of(representations@) =~= Seq::<JsonValue>::empty().push(
                            projection@,
                        ));
                        assert(places_of(places@) =~= Seq::<int>::empty().push(0int));
                    }
                    Ok((representations, places))
                },
                Err(error) => Err(error),
            }
        },
        _ => Err(ExecError::UnexpectedData),
    }
}

/// A call for entities, ready to be sent, with the place of the entity that
/// each representation stands for.
#[derive(Debug)]
pub struct EntitiesCall {
    pub operation: Operation,
    pub representations_to_entity: Vec<usize>,
}

/// Puts the representations of the entities of `response` into `variables`
/// under the name `representations`, and the place of the entity of each
/// at the end of `representations_to_entity`. On an error both stay as they
/// were.
pub fn update_variables_with_representations(
    variables: &mut JsonObject,
    response: &GraphQLResponse,
    selections: &Vec<Selection>,
    representations_to_entity: &mut Vec<usize>,
) -> (result: Result<(), ExecError>)
    ensures
        match result {
            Ok(()) => {
                &&& entities_of(response.data@) is Some
                &&& represented(
                    entities_of(response.data@)->0,
                    selections@,
                    entities_of(response.data@)->0.len(),
                ) is Ok
                &&& final(variables)@ == old(variables)@.insert(
                    representations_key(),
                    JsonValue::Array(
                        represented(
                            entities_of(response.data@)->0,
                            selections@,
                            entities_of(response.data@)->0.len(),
                        )->Ok_0.0,
                    ),
                )
                &&& places_of(final(representations_to_entity)@) == places_of(
                    old(representations_to_entity)@,
                ) + represented(
                    entities_of(response.data@)->0,
                    selections@,
                    entities_of(response.data@)->0.len(),
                )->Ok_0.1
            },
            Err(error) => {
                &&& *final(variables) == *old(variables)
                &&& *final(representations_to_entity) == *old(representations_to_entity)
                &&& if entities_of(response.data@) is Some {
                    represented(
                        entities_of(response.data@)->0,
                        selections@,
                        entities_of(response.data@)->0.len(),
                    ) == Err::<(Seq<JsonValue>, Seq<int>), ExecError>(error)
                } else {
                    error == ExecError::UnexpectedData
                }
            },
        },
{
    match represent_entities(&response.data, selections) {
        Ok((representations, places)) => {
            let ghost known = representations_to_entity@;
            let mut places = places;
            let ghost added = places@;
            assert(Json::Array(representations)@->Array_0 =~= values_of(representations@));
            variables.insert("representations".to_owned(), Json::Array(representations));
            representations_to_entity.append(&mut places);
            assert(places_of(representations_to_entity@) =~= places_of(known) + places_of(added));
            Ok(())
        },
        Err(error) => Err(error),
    }
}

/// The call that a fetch of entities makes for the entities of `response`,
/// or `None` where there is nothing to ask for: where the response holds
/// no data, or no entity that a representation can stand for.
///
/// A node that does not say what it requires is refused, and so is a
/// request with a variable of its own named `representations`.
pub fn begin_entities_fetch(
    fetch: &FetchNode,
    response: &GraphQLResponse,
    context: &RequestContext,
) -> (call: Result<Option<EntitiesCall>, ExecError>)
    ensures
        entities_call(*fetch, response.data@, request_variables(*context)) == match call {
            Ok(Some(made)) => Ok::<Option<CallValue>, ExecError>(
                Some(
                    CallValue {
                        service_name: made.operation.service_name@,
                        operation: made.operation.operation@,
                        variables: made.operation.variables@,
                        places: places_of(made.representations_to_entity@),
                    },
                ),
            ),
            Ok(None) => Ok(None),
            Err(error) => Err(error),
        },
{
    let selections = match &fetch.requires {
        Some(selections) => selections,
        None => {
            return Err(ExecError::MissingRequires);
        },
    };
    let mut variables = forward_variables(&fetch.variable_usages, context);
    let reserved = "representations".to_owned();
    if variables.contains_key(&reserved) {
        return Err(ExecError::ReservedVariable);
    }
    if response.data.is_null() {
        return Ok(None);
    }
    let mut places: Vec<usize> = Vec::new();
    assert(places_of(places@) =~= Seq::<int>::empty());
    match update_variables_with_representations(&mut variables, response, selections, &mut places) {
        Ok(()) => {
            assert(places_of(places@) =~= represented(
                entities_of(response.data@)->0,
                selections@,
                entities_of(response.data@)->0.len(),
            )->Ok_0.1);
            proof {
                representations_match_entities(
                    entities_of(response.data@)->0,
                    selections@,
                    entities_of(response.data@)->0.len(),
                );
            }
            if places.len() == 0 {
                return Ok(None);
            }
            Ok(
                Some(
                    EntitiesCall {
                        operation: Operation {
                            service_name: fetch.service_name.clone(),
                            operation: fetch.operation.clone(),
                            variables,
                        },
                        representations_to_entity: places,
                    },
                ),
            )
        },
        Err(error) => Err(error),
    }
}

/// The value of an [`EntitiesCall`].
pub struct CallValue {
    pub service_name: Seq<char>,
    pub operation: Seq<char>,
    pub variables: Map<Seq<char>, JsonValue>,
    pub places: Seq<int>,
}

/// The call for entities that `fetch` makes for `data`, with the variables
/// of the request.
pub open spec fn entities_call(fetch: FetchNode, data: JsonValue, variables: JsonValue) -> Result<
    Option<CallValue>,
    ExecError,
> {
    if fetch.requires is None {
        Err(ExecError::MissingRequires)
    } else if forwarded(fetch.variable_usages@, variables).contains_key(representations_key()) {
        Err(ExecError::ReservedVariable)
    } else if data is Null {
        Ok(None)
    } else if entities_of(data) is None {
        Err(ExecError::UnexpectedData)
    } else {
        match represented(entities_of(data)->0, fetch.requires->0@, entities_of(data)->0.len()) {
            Err(error) => Err(error),
            Ok((representations, places)) => if places.len() == 0 {
                Ok(None)
            } else {
                Ok(
                    Some(
                        CallValue {
                            service_name: fetch.service_name@,
                            operation: fetch.operation@,
                            variables: forwarded(fetch.variable_usages@, variables).insert(
                                representations_key(),
                                JsonValue::Array(representations),
                            ),
                            places,
                        },
                    ),
                )
            },
        }
    }
}

/// The entities that a response to a call for entities carries: the array
/// under `_entities` in its data.
pub open spec fn received_entities(data: JsonValue) -> Option<Seq<JsonValue>> {
    match data.member(entities_key()) {
        Some(JsonValue::Array(entities)) => Some(entities),
        _ => None,
    }
}

/// `data` after the first `n` of the received entities were merged in, each
/// into the entity at its place: into the element at that place where the
/// data is an array, and into the data itself where it is an object.
pub open spec fn entities_merged(
    data: JsonValue,
    places: Seq<int>,
    received: Seq<JsonValue>,
    n: nat,
) -> JsonValue
    decreases n,
{
    if n == 0 || n > places.len() || n > received.len() {
        data
    } else {
        let before = entities_merged(data, places, received, (n - 1) as nat);
        match before {
            JsonValue::Array(items) => if 0 <= places[n - 1] < items.len() {
                JsonValue::Array(
                    items.update(places[n - 1], merged(items[places[n - 1]], received[n - 1])),
                )
            } else {
                before
            },
            JsonValue::Object(_) => merged(before, received[n - 1]),
            _ => before,
        }
    }
}

/// Merges the answer to a call for entities into `response`: its errors,
/// and each entity into the entity that the representation at its place
/// stood for.
///
/// The answer must carry an array `_entities` with an entity for each
/// representation; where it does not, the response stays as it was.
pub fn finish_entities_fetch(
    response: &mut GraphQLResponse,
    representations_to_entity: &Vec<usize>,
    received: GraphQLResponse,
) -> (result: Result<(), ExecError>)
    ensures
        match result {
            Ok(()) => {
                &&& received_entities(received.data@) is Some
                &&& received_entities(received.data@)->0.len() >= representations_to_entity@.len()
                &&& final(response).data@ == entities_merged(
                    old(response).data@,
                    places_of(representations_to_entity@),
                    received_entities(received.data@)->0,
                    representations_to_entity@.len(),
                )
                &&& errors_of(final(response).errors) == merged_errors(
                    errors_of(old(response).errors),
                    errors_of(received.errors),
                )
            },
            Err(error) => {
                &&& error == ExecError::MissingEntities
                &&& *final(response) == *old(response)
                &&& (received_entities(received.data@) is None || received_entities(
                    received.data@,
                )->0.len() < representations_to_entity@.len())
            },
        },
{
    let name = "_entities".to_owned();
    let GraphQLResponse { data, errors } = received;
    let ghost carried = received_entities(data@);
    let entities = match data {
        Json::Object(object) => {
            let mut members = object.into_members();
            proof {
                lemma_members_value(members@);
            }
            match find_key(&members, &name) {
                Some(p) => {
                    assert(has_key(members@, name@));
                    match members[p].value.take() {
                        Json::Array(entities) => {
                            assert(carried->0 =~= values_of(entities@));
                            entities
                        },
                        _ => {
                            return Err(ExecError::MissingEntities);
                        },
                    }
                },
                None => {
                    return Err(ExecError::MissingEntities);
                },
            }
        },
        _ => {
            return Err(ExecError::MissingEntities);
        },
    };
    if entities.len() < representations_to_entity.len() {
        return Err(ExecError::MissingEntities);
    }
    response.merge_errors(errors);
    let ghost before = response.data@;
    let ghost places = places_of(representations_to_entity@);
    let ghost given = values_of(entities@);
    let mut i: usize = 0;
    for entity in it: entities
        invariant
            it.seq() == entities@,
            i == it.index(),
            given == values_of(entities@),
            places == places_of(representations_to_entity@),
            entities@.len() >= representations_to_entity@.len(),
            entities@.len() <= usize::MAX,
            errors_of(response.errors) == merged_errors(
                errors_of(old(response).errors),
                errors_of(errors),
            ),
            response.data@ == entities_merged(
                before,
                places,
                given,
                if i <= representations_to_entity@.len() {
                    i as nat
                } else {
                    representations_to_entity@.len()
                },
            ),
    {
        if i < representations_to_entity.len() {
            let place = representations_to_entity[i];
            assert(places[i as int] == place);
            assert(given[i as int] == entity@);
            match response.data.take() {
                Json::Array(items) => {
                    let mut items = items;
                    let ghost elements = values_of(items@);
                    assert(elements =~= Json::Array(items)@->Array_0);
                    if place < items.len() {
                        deep_merge(&mut items[place], entity);
                    }
                    response.data = Json::Array(items);
                    assert(response.data@->Array_0 =~= entities_merged(
                        before,
                        places,
                        given,
                        (i + 1) as nat,
                    )->Array_0);
                },
                Json::Object(object) => {
                    let mut whole = Json::Object(object);
                    deep_merge(&mut whole, entity);
                    response.data = whole;
                },
                other => {
                    response.data = other;
                },
            }
        }
        i += 1;
    }
    Ok(())
}

/// Each entity that came back leaves its mark: where the data is an array,
/// every scalar field of a received entity, null apart, stands in the entity
/// at its place once all are merged.
pub proof fn merged_entities_hold_the_received_scalars(
    data: JsonValue,
    places: Seq<int>,
    received: Seq<JsonValue>,
    i: int,
    key: Seq<char>,
)
    requires
        data is Array,
        places.len() <= received.len(),
        forall|a: int| 0 <= a < places.len() ==> 0 <= #[trigger] places[a] < data->Array_0.len(),
        forall|a: int, b: int| 0 <= a < b < places.len() ==> places[a] < places[b],
        0 <= i < places.len(),
        received[i].member(key) is Some,
        !(received[i].member(key)->0 is Null),
        !received[i].member(key)->0.is_composite(),
    ensures
        entities_merged(data, places, received, places.len()) is Array,
        entities_merged(data, places, received, places.len())->Array_0.len()
            == data->Array_0.len(),
        entities_merged(data, places, received, places.len())->Array_0[places[i]].member(key)
            == received[i].member(key),
{
    lemma_entities_merged(data, places, received, places.len());
    merged_takes_the_scalars_of_the_source(data->Array_0[places[i]], received[i], key);
}

/// Where the data is one object, every scalar field of the entity that came
/// back for it, null apart, stands in it once the entity is merged.
pub proof fn merged_object_holds_the_received_scalars(
    data: JsonValue,
    received: Seq<JsonValue>,
    key: Seq<char>,
)
    requires
        data is Object,
        received.len() >= 1,
        received[0].member(key) is Some,
        !(received[0].member(key)->0 is Null),
        !received[0].member(key)->0.is_composite(),
    ensures
        entities_merged(data, seq![0int], received, 1).member(key) == received[0].member(key),
{
    assert(entities_merged(data, seq![0int], received, 0) == data);
    merged_takes_the_scalars_of_the_source(data, received[0], key);
}

/// What `entities_merged` holds at each place of an array.
proof fn lemma_entities_merged(
    data: JsonValue,
    places: Seq<int>,
    received: Seq<JsonValue>,
    n: nat,
)
    requires
        data is Array,
        n <= places.len() <= received.len(),
        forall|a: int| 0 <= a < places.len() ==> 0 <= #[trigger] places[a] < data->Array_0.len(),
        forall|a: int, b: int| 0 <= a < b < places.len() ==> places[a] < places[b],
    ensures
        entities_merged(data, places, received, n) is Array,
        entities_merged(data, places, received, n)->Array_0.len() == data->Array_0.len(),
        forall|a: int|
            0 <= a < n ==> entities_merged(data, places, received, n)->Array_0[#[trigger] places[a]]
                == merged(data->Array_0[places[a]], received[a]),
        forall|j: int|
            0 <= j < data->Array_0.len() && (forall|a: int| 0 <= a < n ==> places[a] != j)
                ==> entities_merged(data, places, received, n)->Array_0[j] == data->Array_0[j],
    decreases n,
{
    if n > 0 {
        lemma_entities_merged(data, places, received, (n - 1) as nat);
        let before = entities_merged(data, places, received, (n - 1) as nat);
        assert forall|a: int| 0 <= a < n - 1 implies #[trigger] places[a] != places[n - 1] by {}
        assert(before->Array_0[places[n - 1]] == data->Array_0[places[n - 1]]);
    }
}

} // verus!
