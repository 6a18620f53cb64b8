use stargate::error::ExecError;
use stargate::fetch::Operation;
use stargate::json::{Json, JsonNumber, JsonObject};
use stargate::plan::{
    FetchNode, Field, FlattenNode, InlineFragment, PlanNode, QueryPlan, Selection,
};
use stargate::response::{GraphQLError, GraphQLRequest, GraphQLResponse, RequestContext};
use stargate::sample::query_plan;
use stargate::walker::{execute_query_plan, Call, ExecutionContext, Reply};

fn plan_from_serde(value: &serde_json::Value) -> Json {
    match value {
        serde_json::Value::Null => Json::Null,
        serde_json::Value::Bool(b) => Json::Bool(*b),
        serde_json::Value::Number(n) => {
            if let Some(u) = n.as_u64() {
                Json::Number(JsonNumber::PosInt(u))
            } else if let Some(i) = n.as_i64() {
                Json::Number(JsonNumber::NegInt(i))
            } else {
                Json::Number(JsonNumber::Float(n.as_f64().unwrap().to_bits()))
            }
        }
        serde_json::Value::String(s) => Json::String(s.clone()),
        serde_json::Value::Array(items) => Json::Array(items.iter().map(plan_from_serde).collect()),
        serde_json::Value::Object(entries) => {
            let mut object = JsonObject::new();
            for (key, value) in entries {
                object.insert(key.clone(), plan_from_serde(value));
            }
            Json::Object(object)
        }
    }
}

fn plan_to_serde(value: &Json) -> serde_json::Value {
    match value {
        Json::Null => serde_json::Value::Null,
        Json::Bool(b) => serde_json::Value::Bool(*b),
        Json::Number(JsonNumber::PosInt(u)) => serde_json::Value::from(*u),
        Json::Number(JsonNumber::NegInt(i)) => serde_json::Value::from(*i),
        Json::Number(JsonNumber::Float(bits)) => serde_json::Value::from(f64::from_bits(*bits)),
        Json::String(s) => serde_json::Value::String(s.clone()),
        Json::Array(items) => serde_json::Value::Array(items.iter().map(plan_to_serde).collect()),
        Json::Object(object) => serde_json::Value::Object(variables_to_serde(object)),
    }
}

fn variables_to_serde(object: &JsonObject) -> serde_json::Map<String, serde_json::Value> {
    let mut entries = serde_json::Map::new();
    for member in object.members() {
        entries.insert(member.key.clone(), plan_to_serde(&member.value));
    }
    entries
}

fn parsed(text: &str) -> Json {
    plan_from_serde(&serde_json::from_str::<serde_json::Value>(text).unwrap())
}

fn answer(text: &str) -> Reply {
    let value = serde_json::from_str::<serde_json::Value>(text).unwrap();
    let data = value.get("data").map(plan_from_serde).unwrap_or(Json::Null);
    let errors = value.get("errors").and_then(|errors| errors.as_array()).map(|errors| {
        errors
            .iter()
            .map(|error| GraphQLError {
                message: error.get("message").unwrap().as_str().unwrap().to_string(),
                extensions: None,
            })
            .collect()
    });
    Reply::Response(GraphQLResponse { data, errors })
}

fn wire(response: &GraphQLResponse) -> String {
    let mut entries = serde_json::Map::new();
    if !response.data.is_null() {
        entries.insert("data".to_string(), plan_to_serde(&response.data));
    }
    if let Some(errors) = &response.errors {
        let list = errors
            .iter()
            .map(|error| {
                let mut one = serde_json::Map::new();
                one.insert(
                    "message".to_string(),
                    serde_json::Value::String(error.message.clone()),
                );
                serde_json::Value::Object(one)
            })
            .collect();
        entries.insert("errors".to_string(), serde_json::Value::Array(list));
    }
    serde_json::Value::Object(entries).to_string()
}

fn fetch(service: &str, operation: &str) -> PlanNode {
    PlanNode::Fetch(FetchNode {
        service_name: service.to_string(),
        variable_usages: vec![],
        requires: None,
        operation: operation.to_string(),
    })
}

fn field(name: &str) -> Selection {
    Selection::Field(Field { alias: None, name: name.to_string(), selections: None })
}

fn flatten(path: &[&str], service: &str, requires: Vec<Selection>, usages: &[&str]) -> PlanNode {
    PlanNode::Flatten(FlattenNode {
        path: path.iter().map(|segment| segment.to_string()).collect(),
        node: Box::new(PlanNode::Fetch(FetchNode {
            service_name: service.to_string(),
            variable_usages: usages.iter().map(|name| name.to_string()).collect(),
            requires: Some(requires),
            operation: "query($representations:[_Any!]!){_entities(representations:$representations){...on Book{title}}}".to_string(),
        })),
    })
}

fn request(variables: Option<&str>) -> RequestContext {
    RequestContext {
        graphql_request: GraphQLRequest {
            query: "{x}".to_string(),
            operation_name: None,
            variables: variables.map(parsed),
        },
        header_map: vec![],
    }
}

/// Which of the calls that are out is answered next.
#[derive(Clone, Copy)]
enum Order {
    FirstOut,
    LastOut,
}

/// Walks the plan, answering one call at a time with what `subgraph` says.
/// Every call that was made is noted in `seen`, as the name of the service
/// and the variables of the call.
fn walk(
    plan: &QueryPlan,
    services: &[&str],
    context: &RequestContext,
    order: Order,
    subgraph: &dyn Fn(&Operation) -> Reply,
    seen: &mut Vec<(String, String)>,
) -> Result<GraphQLResponse, ExecError> {
    let names: Vec<String> = services.iter().map(|name| name.to_string()).collect();
    let context = ExecutionContext { service_names: &names, request_context: context };
    let (mut execution, mut out): (_, Vec<Call>) = execute_query_plan(plan, &context)?;
    while !out.is_empty() {
        assert!(!execution.is_finished());
        let call = match order {
            Order::FirstOut => out.remove(0),
            Order::LastOut => out.pop().unwrap(),
        };
        seen.push((
            call.operation.service_name.clone(),
            serde_json::Value::Object(variables_to_serde(&call.operation.variables)).to_string(),
        ));
        let reply = subgraph(&call.operation);
        let (next, more) = execution.deliver(plan, &context, &call.ticket, reply)?;
        execution = next;
        out.extend(more);
    }
    assert!(execution.is_finished());
    Ok(execution.into_response())
}

fn run(plan: &QueryPlan, subgraph: &dyn Fn(&Operation) -> Reply) -> Result<GraphQLResponse, ExecError> {
    walk(plan, &["A", "B"], &request(None), Order::FirstOut, subgraph, &mut vec![])
}

fn books_plan(path: &[&str]) -> QueryPlan {
    QueryPlan {
        node: Some(PlanNode::Sequence {
            nodes: vec![
                fetch("A", "{top}"),
                flatten(path, "B", vec![field("__typename"), field("isbn")], &[]),
            ],
        }),
    }
}

#[test]
fn an_empty_plan_is_refused() {
    let result = run(&QueryPlan { node: None }, &|_| Reply::Failure);
    assert_eq!(result.err(), Some(ExecError::IntrospectionNotSupported));
    assert_eq!(ExecError::IntrospectionNotSupported.message(), "introspection not supported");
}

#[test]
fn single_subgraph_no_entities() {
    let plan = QueryPlan { node: Some(fetch("A", "{x}")) };
    let mut seen = vec![];
    let response = walk(
        &plan,
        &["A"],
        &request(None),
        Order::FirstOut,
        &|operation| {
            assert_eq!(operation.operation, "{x}");
            answer(r#"{"data":{"x":1}}"#)
        },
        &mut seen,
    )
    .unwrap();
    assert_eq!(wire(&response), r#"{"data":{"x":1}}"#);
    assert_eq!(seen, vec![("A".to_string(), "{}".to_string())]);
}

#[test]
fn parallel_fan_out() {
    let plan = QueryPlan {
        node: Some(PlanNode::Parallel { nodes: vec![fetch("A", "{a}"), fetch("B", "{b}")] }),
    };
    let subgraph = |operation: &Operation| {
        if operation.service_name == "A" {
            answer(r#"{"data":{"a":1}}"#)
        } else {
            answer(r#"{"data":{"b":2}}"#)
        }
    };
    for order in [Order::FirstOut, Order::LastOut] {
        let mut seen = vec![];
        let response =
            walk(&plan, &["A", "B"], &request(None), order, &subgraph, &mut seen).unwrap();
        assert_eq!(wire(&response), r#"{"data":{"a":1,"b":2}}"#);
        assert_eq!(seen.len(), 2);
    }
}

#[test]
fn a_parallel_node_makes_all_its_calls_at_once() {
    let plan = QueryPlan {
        node: Some(PlanNode::Parallel {
            nodes: vec![fetch("A", "{a}"), fetch("B", "{b}"), fetch("A", "{c}")],
        }),
    };
    let names = vec!["A".to_string(), "B".to_string()];
    let context = request(None);
    let context = ExecutionContext { service_names: &names, request_context: &context };
    let (execution, calls) = execute_query_plan(&plan, &context).unwrap();
    assert!(!execution.is_finished());
    let tickets: Vec<Vec<usize>> = calls.iter().map(|call| call.ticket.clone()).collect();
    assert_eq!(tickets, vec![vec![0], vec![1], vec![2]]);
}

#[test]
fn a_sequence_makes_its_calls_one_after_the_other() {
    let plan = QueryPlan {
        node: Some(PlanNode::Sequence { nodes: vec![fetch("A", "{a}"), fetch("B", "{b}")] }),
    };
    let names = vec!["A".to_string(), "B".to_string()];
    let context = request(None);
    let context = ExecutionContext { service_names: &names, request_context: &context };
    let (execution, calls) = execute_query_plan(&plan, &context).unwrap();
    assert_eq!(calls.len(), 1);
    assert_eq!(calls[0].ticket, vec![0]);
    assert_eq!(calls[0].operation.service_name, "A");
    let (execution, calls) = execution
        .deliver(&plan, &context, &calls[0].ticket, answer(r#"{"data":{"a":1}}"#))
        .unwrap();
    assert!(!execution.is_finished());
    assert_eq!(calls.len(), 1);
    assert_eq!(calls[0].ticket, vec![1]);
    assert_eq!(calls[0].operation.service_name, "B");
    let (execution, calls) = execution
        .deliver(&plan, &context, &calls[0].ticket, answer(r#"{"data":{"b":2}}"#))
        .unwrap();
    assert!(calls.is_empty());
    assert!(execution.is_finished());
    assert_eq!(wire(&execution.into_response()), r#"{"data":{"a":1,"b":2}}"#);
}

#[test]
fn sequence_then_flatten_over_array() {
    let plan = books_plan(&["top", "@"]);
    let mut seen = vec![];
    let response = walk(
        &plan,
        &["A", "B"],
        &request(None),
        Order::FirstOut,
        &|operation| {
            if operation.service_name == "A" {
                answer(
                    r#"{"data":{"top":[{"__typename":"Book","isbn":"1"},{"__typename":"Book","isbn":"2"}]}}"#,
                )
            } else {
                answer(r#"{"data":{"_entities":[{"title":"T1"},{"title":"T2"}]}}"#)
            }
        },
        &mut seen,
    )
    .unwrap();
    assert_eq!(
        wire(&response),
        r#"{"data":{"top":[{"__typename":"Book","isbn":"1","title":"T1"},{"__typename":"Book","isbn":"2","title":"T2"}]}}"#
    );
    assert_eq!(
        seen[1],
        (
            "B".to_string(),
            r#"{"representations":[{"__typename":"Book","isbn":"1"},{"__typename":"Book","isbn":"2"}]}"#
                .to_string()
        )
    );
}

#[test]
fn flatten_over_singleton_object() {
    let plan = QueryPlan {
        node: Some(PlanNode::Sequence {
            nodes: vec![
                fetch("A", "{product}"),
                flatten(&["product"], "B", vec![field("__typename"), field("isbn")], &[]),
            ],
        }),
    };
    let response = run(&plan, &|operation| {
        if operation.service_name == "A" {
            answer(r#"{"data":{"product":{"__typename":"Book","isbn":"9"}}}"#)
        } else {
            answer(r#"{"data":{"_entities":[{"year":1995}]}}"#)
        }
    })
    .unwrap();
    assert_eq!(
        wire(&response),
        r#"{"data":{"product":{"__typename":"Book","isbn":"9","year":1995}}}"#
    );
}

#[test]
fn reserved_variable_collision() {
    let plan = QueryPlan {
        node: Some(PlanNode::Sequence {
            nodes: vec![
                fetch("A", "{top}"),
                flatten(&["top", "@"], "B", vec![field("__typename")], &["representations"]),
            ],
        }),
    };
    let result = walk(
        &plan,
        &["A", "B"],
        &request(Some(r#"{"representations":[1]}"#)),
        Order::FirstOut,
        &|_| answer(r#"{"data":{"top":[{"__typename":"Book"}]}}"#),
        &mut vec![],
    );
    assert_eq!(result.err(), Some(ExecError::ReservedVariable));
}

#[test]
fn partial_subgraph_errors() {
    let plan = QueryPlan { node: Some(fetch("A", "{x}")) };
    let response =
        run(&plan, &|_| answer(r#"{"data":{"x":1},"errors":[{"message":"warn"}]}"#)).unwrap();
    assert_eq!(wire(&response), r#"{"data":{"x":1},"errors":[{"message":"warn"}]}"#);
}

#[test]
fn errors_without_data_are_appended_and_the_data_stays() {
    let plan = QueryPlan {
        node: Some(PlanNode::Sequence { nodes: vec![fetch("A", "{a}"), fetch("B", "{b}")] }),
    };
    let response = run(&plan, &|operation| {
        if operation.service_name == "A" {
            answer(r#"{"data":{"a":1}}"#)
        } else {
            answer(r#"{"data":null,"errors":[{"message":"E"}]}"#)
        }
    })
    .unwrap();
    assert_eq!(wire(&response), r#"{"data":{"a":1},"errors":[{"message":"E"}]}"#);
}

#[test]
fn a_flatten_path_over_an_absent_field_makes_no_call() {
    let plan = books_plan(&["missing", "@"]);
    let mut seen = vec![];
    let response = walk(
        &plan,
        &["A", "B"],
        &request(None),
        Order::FirstOut,
        &|_| answer(r#"{"data":{"top":[]}}"#),
        &mut seen,
    )
    .unwrap();
    assert_eq!(wire(&response), r#"{"data":{"top":[]}}"#);
    assert_eq!(seen.len(), 1);
}

#[test]
fn no_call_is_made_without_representations() {
    let plan = books_plan(&["top", "@"]);
    let mut seen = vec![];
    let response = walk(
        &plan,
        &["A", "B"],
        &request(None),
        Order::FirstOut,
        &|_| answer(r#"{"data":{"top":[null,null]}}"#),
        &mut seen,
    )
    .unwrap();
    assert_eq!(wire(&response), r#"{"data":{"top":[null,null]}}"#);
    assert_eq!(seen.len(), 1);
}

#[test]
fn too_few_entities_are_fatal() {
    let plan = books_plan(&["top", "@"]);
    let result = run(&plan, &|operation| {
        if operation.service_name == "A" {
            answer(
                r#"{"data":{"top":[{"__typename":"Book","isbn":"1"},{"__typename":"Book","isbn":"2"}]}}"#,
            )
        } else {
            answer(r#"{"data":{"_entities":[{"title":"T1"}]}}"#)
        }
    });
    assert_eq!(result.err(), Some(ExecError::MissingEntities));
}

#[test]
fn an_answer_without_entities_is_fatal() {
    let plan = books_plan(&["top", "@"]);
    for bad in [r#"{"data":{"other":1}}"#, r#"{"data":null}"#, r#"{"data":{"_entities":{}}}"#] {
        let result = run(&plan, &|operation| {
            if operation.service_name == "A" {
                answer(r#"{"data":{"top":[{"__typename":"Book","isbn":"1"}]}}"#)
            } else {
                answer(bad)
            }
        });
        assert_eq!(result.err(), Some(ExecError::MissingEntities));
    }
}

#[test]
fn entities_go_to_the_entities_that_were_represented() {
    let plan = books_plan(&["top", "@"]);
    let mut seen = vec![];
    let response = walk(
        &plan,
        &["A", "B"],
        &request(None),
        Order::FirstOut,
        &|operation| {
            if operation.service_name == "A" {
                answer(
                    r#"{"data":{"top":[{"__typename":"Book","isbn":"1"},null,{"__typename":"Book","isbn":"3"}]}}"#,
                )
            } else {
                answer(r#"{"data":{"_entities":[{"title":"T1"},{"title":"T3"}]}}"#)
            }
        },
        &mut seen,
    )
    .unwrap();
    assert_eq!(
        wire(&response),
        r#"{"data":{"top":[{"__typename":"Book","isbn":"1","title":"T1"},null,{"__typename":"Book","isbn":"3","title":"T3"}]}}"#
    );
}

#[test]
fn a_wildcard_on_an_object_is_fatal() {
    let plan = books_plan(&["top", "@"]);
    let result = run(&plan, &|_| answer(r#"{"data":{"top":{"__typename":"Book","isbn":"1"}}}"#));
    assert_eq!(result.err(), Some(ExecError::PathMismatch));
}

#[test]
fn a_missing_required_field_is_fatal() {
    let plan = books_plan(&["top", "@"]);
    let result = run(&plan, &|_| answer(r#"{"data":{"top":[{"__typename":"Book"}]}}"#));
    assert_eq!(result.err(), Some(ExecError::MissingField));
}

#[test]
fn a_scalar_cannot_have_entities() {
    let plan = books_plan(&["top"]);
    let result = run(&plan, &|_| answer(r#"{"data":{"top":5}}"#));
    assert_eq!(result.err(), Some(ExecError::UnexpectedData));
}

#[test]
fn a_fetch_at_the_root_must_not_require_fields() {
    let plan = QueryPlan {
        node: Some(PlanNode::Fetch(FetchNode {
            service_name: "A".to_string(),
            variable_usages: vec![],
            requires: Some(vec![field("__typename")]),
            operation: "{x}".to_string(),
        })),
    };
    assert_eq!(run(&plan, &|_| Reply::Failure).err(), Some(ExecError::UnexpectedRequires));
}

#[test]
fn a_flatten_node_must_hold_a_fetch_that_requires_fields() {
    let no_fetch = QueryPlan {
        node: Some(PlanNode::Flatten(FlattenNode {
            path: vec![],
            node: Box::new(PlanNode::Sequence { nodes: vec![] }),
        })),
    };
    assert_eq!(run(&no_fetch, &|_| Reply::Failure).err(), Some(ExecError::FlattenWithoutFetch));
    let no_requires = QueryPlan {
        node: Some(PlanNode::Flatten(FlattenNode {
            path: vec![],
            node: Box::new(fetch("A", "{x}")),
        })),
    };
    assert_eq!(run(&no_requires, &|_| Reply::Failure).err(), Some(ExecError::MissingRequires));
}

#[test]
fn an_unknown_service_is_fatal() {
    let plan = QueryPlan { node: Some(fetch("C", "{x}")) };
    assert_eq!(run(&plan, &|_| Reply::Failure).err(), Some(ExecError::UnknownService));
}

#[test]
fn a_failed_call_is_fatal() {
    let plan = QueryPlan { node: Some(fetch("A", "{x}")) };
    assert_eq!(run(&plan, &|_| Reply::Failure).err(), Some(ExecError::Transport));
}

#[test]
fn an_answer_that_nobody_waits_for_is_fatal() {
    let plan = QueryPlan {
        node: Some(PlanNode::Sequence { nodes: vec![fetch("A", "{a}"), fetch("B", "{b}")] }),
    };
    let names = vec!["A".to_string(), "B".to_string()];
    let context = request(None);
    let context = ExecutionContext { service_names: &names, request_context: &context };
    let (execution, _) = execute_query_plan(&plan, &context).unwrap();
    let result = execution.deliver(&plan, &context, &[1], answer(r#"{"data":{"b":2}}"#));
    assert_eq!(result.err(), Some(ExecError::UnexpectedReply));
    let (execution, _) = execute_query_plan(&plan, &context).unwrap();
    let result = execution.deliver(&plan, &context, &[0, 0], answer(r#"{"data":{"b":2}}"#));
    assert_eq!(result.err(), Some(ExecError::UnexpectedReply));
    let (execution, _) = execute_query_plan(&plan, &context).unwrap();
    let result = execution.deliver(&plan, &context, &[], answer(r#"{"data":{"b":2}}"#));
    assert_eq!(result.err(), Some(ExecError::UnexpectedReply));
}

#[test]
fn variables_are_forwarded_by_usage() {
    let plan = QueryPlan {
        node: Some(PlanNode::Fetch(FetchNode {
            service_name: "A".to_string(),
            variable_usages: vec!["first".to_string(), "absent".to_string(), "first".to_string()],
            requires: None,
            operation: "{x}".to_string(),
        })),
    };
    let mut seen = vec![];
    walk(
        &plan,
        &["A"],
        &request(Some(r#"{"first":5,"other":true}"#)),
        Order::FirstOut,
        &|_| answer(r#"{"data":{"x":1}}"#),
        &mut seen,
    )
    .unwrap();
    assert_eq!(seen, vec![("A".to_string(), r#"{"first":5}"#.to_string())]);
}

#[test]
fn an_empty_sequence_is_done_at_once() {
    let plan = QueryPlan { node: Some(PlanNode::Sequence { nodes: vec![] }) };
    let mut seen = vec![];
    let response =
        walk(&plan, &[], &request(None), Order::FirstOut, &|_| Reply::Failure, &mut seen).unwrap();
    assert_eq!(wire(&response), "{}");
    assert!(seen.is_empty());
}

#[test]
fn two_walks_give_the_same_response() {
    let plan = books_plan(&["top", "@"]);
    let subgraph = |operation: &Operation| {
        if operation.service_name == "A" {
            answer(r#"{"data":{"top":[{"__typename":"Book","isbn":"1"}]},"errors":[{"message":"w"}]}"#)
        } else {
            answer(r#"{"data":{"_entities":[{"title":"T1"}]}}"#)
        }
    };
    let one = run(&plan, &subgraph).unwrap();
    let two = run(&plan, &subgraph).unwrap();
    assert_eq!(wire(&one), wire(&two));
    assert_eq!(
        wire(&one),
        r#"{"data":{"top":[{"__typename":"Book","isbn":"1","title":"T1"}]},"errors":[{"message":"w"}]}"#
    );
}

fn sample_subgraph(operation: &Operation) -> Reply {
    let sent = serde_json::Value::Object(variables_to_serde(&operation.variables));
    let representations = sent.get("representations").and_then(|list| list.as_array());
    match (operation.service_name.as_str(), representations) {
        ("product", None) => answer(
            r#"{"data":{"topProducts":[{"__typename":"Book","isbn":"1"},{"__typename":"Furniture","name":"Chair"},{"__typename":"Book","isbn":"2"}],"product":{"__typename":"Book","isbn":"3"}}}"#,
        ),
        ("books", Some(list)) => {
            let entities: Vec<String> = list
                .iter()
                .map(|representation| {
                    let isbn = representation.get("isbn").unwrap().as_str().unwrap();
                    format!(r#"{{"title":"Title {}","year":{}}}"#, isbn, 1990 + isbn.len())
                })
                .collect();
            answer(&format!(r#"{{"data":{{"_entities":[{}]}}}}"#, entities.join(",")))
        }
        ("product", Some(list)) => {
            let entities: Vec<String> = list
                .iter()
                .map(|representation| {
                    let title = representation.get("title").unwrap().as_str().unwrap();
                    format!(r#"{{"name":"{} (book)"}}"#, title)
                })
                .collect();
            answer(&format!(r#"{{"data":{{"_entities":[{}]}}}}"#, entities.join(",")))
        }
        _ => Reply::Failure,
    }
}

#[test]
fn the_sample_plan_enriches_the_books() {
    let plan = query_plan();
    for order in [Order::FirstOut, Order::LastOut] {
        let mut seen = vec![];
        let response = walk(
            &plan,
            &["product", "books"],
            &request(None),
            order,
            &sample_subgraph,
            &mut seen,
        )
        .unwrap();
        assert_eq!(seen.len(), 5);
        assert_eq!(
            wire(&response),
            r#"{"data":{"product":{"__typename":"Book","isbn":"3","name":"Title 3 (book)","title":"Title 3","year":1991},"topProducts":[{"__typename":"Book","isbn":"1","name":"Title 1 (book)","title":"Title 1","year":1991},{"__typename":"Furniture","name":"Chair"},{"__typename":"Book","isbn":"2","name":"Title 2 (book)","title":"Title 2","year":1991}]}}"#
        );
    }
}

#[test]
fn fragments_on_another_type_take_nothing() {
    let on_book = Selection::InlineFragment(InlineFragment {
        type_condition: Some("Book".to_string()),
        selections: vec![field("__typename"), field("isbn")],
    });
    let plan = QueryPlan {
        node: Some(PlanNode::Sequence {
            nodes: vec![fetch("A", "{top}"), flatten(&["top", "@"], "B", vec![on_book], &[])],
        }),
    };
    let mut seen = vec![];
    walk(
        &plan,
        &["A", "B"],
        &request(None),
        Order::FirstOut,
        &|operation| {
            if operation.service_name == "A" {
                answer(
                    r#"{"data":{"top":[{"__typename":"Chair"},{"__typename":"Book","isbn":"7"}]}}"#,
                )
            } else {
                answer(r#"{"data":{"_entities":[{"title":"Seven"}]}}"#)
            }
        },
        &mut seen,
    )
    .unwrap();
    assert_eq!(
        seen[1].1,
        r#"{"representations":[{"__typename":"Book","isbn":"7"}]}"#.to_string()
    );
}
