//! Walking a query plan.
//!
//! The walk is a state machine. It starts with the calls that the plan makes
//! at once. Whoever drives it sends the calls, at the same time where there
//! are several, and hands in each answer as it comes; an answer may set off
//! more calls. A sequence makes the calls of a node only once the node
//! before it is done, and a parallel node makes those of all its nodes at
//! once.
use crate::error::ExecError;
use crate::fetch::{begin_fetch, forwarded, places_of, request_variables, Operation};
use crate::flatten::{begin_flatten, finish_flatten, flatten_call, flatten_result, FlattenCall};
use crate::json::{Json, JsonValue};
use crate::plan::{PlanNode, QueryPlan};
use crate::response::{errors_of, merged_errors, GraphQLResponse, RequestContext};
use crate::deep_merge::merged;
use crate::slice::path_keys;
use vstd::prelude::*;

verus! {

/// What a walk needs to know of its surroundings: the names of the
/// subgraphs that can be called, and the request that is being answered.
#[derive(Debug)]
pub struct ExecutionContext<'schema, 'req> {
    pub service_names: &'schema Vec<String>,
    pub request_context: &'req RequestContext,
}

/// One call to a subgraph that the walk asks for. The ticket says which
/// node of the plan waits for the answer: it is the way to the node from
/// the root, each step the number of a child.
#[derive(Debug)]
pub struct Call {
    pub ticket: Vec<usize>,
    pub operation: Operation,
}

/// The answer to a call: the response of the subgraph, or the news that the
/// call failed.
#[derive(Debug)]
pub enum Reply {
    Response(GraphQLResponse),
    Failure,
}

/// How far a node of the plan has come.
#[derive(Debug)]
pub enum Progress {
    /// A fetch whose call is out.
    Fetching,
    /// A flatten node whose call is out, with the part of the response that
    /// the entities are fetched for and the place of the entity of each
    /// representation.
    Flattening { inner: Json, representations_to_entity: Vec<usize> },
    /// A sequence whose node number `at` is under way; those before it are
    /// done and those after it have not begun.
    Sequence { at: usize, current: Box<Progress> },
    /// A parallel node, with the progress of each of its nodes.
    Parallel { children: Vec<Progress> },
    /// Nothing is left to do.
    Done,
}

/// The value of a [`Progress`].
pub enum ProgressValue {
    Fetching,
    Flattening(JsonValue, Seq<int>),
    Sequence(int, Box<ProgressValue>),
    Parallel(Seq<ProgressValue>),
    Done,
}

/// The value of a [`Call`].
pub struct CallValue {
    pub ticket: Seq<int>,
    pub service_name: Seq<char>,
    pub operation: Seq<char>,
    pub variables: Map<Seq<char>, JsonValue>,
}

impl View for Call {
    type V = CallValue;

    open spec fn view(&self) -> CallValue {
        CallValue {
            ticket: places_of(self.ticket@),
            service_name: self.operation.service_name@,
            operation: self.operation.operation@,
            variables: self.operation.variables@,
        }
    }
}

/// The values of a list of calls.
pub open spec fn calls_of(calls: Seq<Call>) -> Seq<CallValue> {
    Seq::new(calls.len(), |i: int| calls[i]@)
}

impl View for Progress {
    type V = ProgressValue;

    open spec fn view(&self) -> ProgressValue
        decreases self,
    {
        match self {
            Progress::Fetching => ProgressValue::Fetching,
            Progress::Flattening { inner, representations_to_entity } => ProgressValue::Flattening(
                inner@,
                places_of(representations_to_entity@),
            ),
            Progress::Sequence { at, current } => ProgressValue::Sequence(
                *at as int,
                Box::new((**current)@),
            ),
            Progress::Parallel { children } => ProgressValue::Parallel(
                Seq::new(
                    children@.len(),
                    |i: int|
                        if 0 <= i < children@.len() {
                            children@[i]@
                        } else {
                            ProgressValue::Done
                        },
                ),
            ),
            Progress::Done => ProgressValue::Done,
        }
    }
}

/// The values of a list of progresses.
pub open spec fn progress_of(children: Seq<Progress>) -> Seq<ProgressValue> {
    Seq::new(children.len(), |i: int| children[i]@)
}

/// What a walk is given: the variables of the request and the names of the
/// subgraphs that can be called.
pub struct Setting {
    pub variables: JsonValue,
    pub services: Seq<String>,
}

/// Whether `name` is the name of one of `services`.
pub open spec fn knows(services: Seq<String>, name: Seq<char>) -> bool {
    exists|i: int| 0 <= i < services.len() && (#[trigger] services[i])@ == name
}

/// The setting that a context gives.
pub open spec fn setting_of(context: ExecutionContext<'_, '_>) -> Setting {
    Setting {
        variables: request_variables(*context.request_context),
        services: context.service_names@,
    }
}

/// A parallel node is done when all its nodes are.
pub open spec fn gathered(children: Seq<ProgressValue>) -> ProgressValue {
    if forall|i: int| 0 <= i < children.len() ==> (#[trigger] children[i]) is Done {
        ProgressValue::Done
    } else {
        ProgressValue::Parallel(children)
    }
}

/// Where the node at `position` stands once it is set going with the
/// response data as it is, and the calls that this sets off; or the error
/// that stops the walk.
///
/// A fetch makes its call, unless it requires fields of entities or names
/// an unknown subgraph. A flatten node makes the call for its entities, and
/// is done at once where there is nothing to ask for. A sequence sets its
/// first node going, and the next where that is done at once, and so on. A
/// parallel node sets all its nodes going.
pub open spec fn launched(node: PlanNode, data: JsonValue, setting: Setting, position: Seq<int>) -> Result<
    (ProgressValue, Seq<CallValue>),
    ExecError,
>
    decreases node, 0nat,
{
    match node {
        PlanNode::Fetch(fetch) => if fetch.requires is Some {
            Err(ExecError::UnexpectedRequires)
        } else if !knows(setting.services, fetch.service_name@) {
            Err(ExecError::UnknownService)
        } else {
            Ok(
                (
                    ProgressValue::Fetching,
                    seq![
                        CallValue {
                            ticket: position,
                            service_name: fetch.service_name@,
                            operation: fetch.operation@,
                            variables: forwarded(fetch.variable_usages@, setting.variables),
                        },
                    ],
                ),
            )
        },
        PlanNode::Flatten(flatten) => match flatten_call(flatten, data, setting.variables) {
            Err(error) => Err(error),
            Ok(None) => Ok((ProgressValue::Done, Seq::empty())),
            Ok(Some(made)) => if !knows(setting.services, made.call.service_name) {
                Err(ExecError::UnknownService)
            } else {
                Ok(
                    (
                        ProgressValue::Flattening(made.inner, made.call.places),
                        seq![
                            CallValue {
                                ticket: position,
                                service_name: made.call.service_name,
                                operation: made.call.operation,
                                variables: made.call.variables,
                            },
                        ],
                    ),
                )
            },
        },
        PlanNode::Sequence { nodes } => launched_from(nodes@, 0, data, setting, position),
        PlanNode::Parallel { nodes } => match launched_all(
            nodes@,
            nodes@.len(),
            data,
            setting,
            position,
        ) {
            Err(error) => Err(error),
            Ok((children, calls)) => Ok((gathered(children), calls)),
        },
    }
}

/// Where a sequence stands once its nodes from number `from` on are set
/// going, one after the other for as long as each is done at once.
pub open spec fn launched_from(
    nodes: Seq<PlanNode>,
    from: nat,
    data: JsonValue,
    setting: Setting,
    position: Seq<int>,
) -> Result<(ProgressValue, Seq<CallValue>), ExecError>
    decreases nodes, nodes.len() - from,
{
    if from >= nodes.len() {
        Ok((ProgressValue::Done, Seq::empty()))
    } else {
        match launched(nodes[from as int], data, setting, position.push(from as int)) {
            Err(error) => Err(error),
            Ok((ProgressValue::Done, calls)) => match launched_from(
                nodes,
                from + 1,
                data,
                setting,
                position,
            ) {
                Err(error) => Err(error),
                Ok((progress, more)) => Ok((progress, calls + more)),
            },
            Ok((current, calls)) => Ok(
                (ProgressValue::Sequence(from as int, Box::new(current)), calls),
            ),
        }
    }
}

/// Where the first `n` nodes of a parallel node stand once they are all
/// set going, and the calls that this sets off.
pub open spec fn launched_all(
    nodes: Seq<PlanNode>,
    n: nat,
    data: JsonValue,
    setting: Setting,
    position: Seq<int>,
) -> Result<(Seq<ProgressValue>, Seq<CallValue>), ExecError>
    decreases nodes, n,
{
    if n == 0 || n > nodes.len() {
        Ok((Seq::empty(), Seq::empty()))
    } else {
        match launched_all(nodes, (n - 1) as nat, data, setting, position) {
            Err(error) => Err(error),
            Ok((children, calls)) => match launched(
                nodes[n - 1],
                data,
                setting,
                position.push(n - 1),
            ) {
                Err(error) => Err(error),
                Ok((child, more)) => Ok((children.push(child), calls + more)),
            },
        }
    }
}

/// Where the node at `position` stands, what the response data is, and the
/// calls that are set off, once the answer `reply` to the call with
/// `ticket` is taken in; or the error that stops the walk. `depth` steps of
/// the ticket have been followed to come to this node.
///
/// The answer to a fetch is merged into the response. The answer to the
/// call of a flatten node is merged into the part that its entities were
/// fetched for, and that part is merged back. Either node is done then. A
/// sequence hands the answer to the node that is under way and, where that
/// is done with it, sets the next going. A parallel node hands the answer
/// to the node that the ticket names. An answer that nobody waits for is an
/// error.
pub open spec fn settled(
    node: PlanNode,
    progress: ProgressValue,
    data: JsonValue,
    setting: Setting,
    ticket: Seq<int>,
    depth: nat,
    position: Seq<int>,
    reply: JsonValue,
) -> Result<(ProgressValue, JsonValue, Seq<CallValue>), ExecError>
    decreases node,
{
    match (node, progress) {
        (PlanNode::Fetch(_), ProgressValue::Fetching) => if depth == ticket.len() {
            Ok((ProgressValue::Done, merged(data, reply), Seq::empty()))
        } else {
            Err(ExecError::UnexpectedReply)
        },
        (PlanNode::Flatten(flatten), ProgressValue::Flattening(inner, places)) => if depth
            == ticket.len() {
            match flatten_result(data, path_keys(flatten.path@), inner, places, reply) {
                Err(error) => Err(error),
                Ok(after) => Ok((ProgressValue::Done, after, Seq::empty())),
            }
        } else {
            Err(ExecError::UnexpectedReply)
        },
        (PlanNode::Sequence { nodes }, ProgressValue::Sequence(at, current)) => if depth
            < ticket.len() && ticket[depth as int] == at && 0 <= at < nodes@.len() {
            match settled(
                nodes@[at],
                *current,
                data,
                setting,
                ticket,
                depth + 1,
                position.push(at),
                reply,
            ) {
                Err(error) => Err(error),
                Ok((ProgressValue::Done, after, calls)) => match launched_from(
                    nodes@,
                    (at + 1) as nat,
                    after,
                    setting,
                    position,
                ) {
                    Err(error) => Err(error),
                    Ok((next, more)) => Ok((next, after, calls + more)),
                },
                Ok((current, after, calls)) => Ok(
                    (ProgressValue::Sequence(at, Box::new(current)), after, calls),
                ),
            }
        } else {
            Err(ExecError::UnexpectedReply)
        },
        (PlanNode::Parallel { nodes }, ProgressValue::Parallel(children)) => if depth
            < ticket.len() && 0 <= ticket[depth as int] < nodes@.len() && children.len()
            == nodes@.len() {
            let which = ticket[depth as int];
            match settled(
                nodes@[which],
                children[which],
                data,
                setting,
                ticket,
                depth + 1,
                position.push(which),
                reply,
            ) {
                Err(error) => Err(error),
                Ok((child, after, calls)) => Ok(
                    (gathered(children.update(which, child)), after, calls),
                ),
            }
        } else {
            Err(ExecError::UnexpectedReply)
        },
        _ => Err(ExecError::UnexpectedReply),
    }
}

/// Whether what a launch returned, and the calls that it added, are what
/// `expected` says.
pub open spec fn launch_agrees(
    result: Result<Progress, ExecError>,
    expected: Result<(ProgressValue, Seq<CallValue>), ExecError>,
    before: Seq<Call>,
    after: Seq<Call>,
) -> bool {
    match result {
        Ok(progress) => expected is Ok && progress@ == expected->Ok_0.0 && calls_of(after)
            == calls_of(before) + expected->Ok_0.1,
        Err(error) => expected == Err::<(ProgressValue, Seq<CallValue>), ExecError>(error),
    }
}

/// Once a node of a parallel node has failed to start, the whole has.
proof fn lemma_launched_all_fails(
    nodes: Seq<PlanNode>,
    n: nat,
    m: nat,
    data: JsonValue,
    setting: Setting,
    position: Seq<int>,
)
    requires
        n <= m <= nodes.len(),
        launched_all(nodes, n, data, setting, position) is Err,
    ensures
        launched_all(nodes, m, data, setting, position) == launched_all(
            nodes,
            n,
            data,
            setting,
            position,
        ),
    decreases m,
{
    if n < m {
        lemma_launched_all_fails(nodes, n, (m - 1) as nat, data, setting, position);
    }
}

fn knows_service(names: &Vec<String>, name: &String) -> (known: bool)
    ensures
        known == knows(names@, name@),
{
    let mut i: usize = 0;
    while i < names.len()
        invariant
            i <= names@.len(),
            forall|j: int| 0 <= j < i ==> (#[trigger] names@[j])@ != name@,
        decreases names@.len() - i,
    {
        if names[i] == *name {
            return true;
        }
        i += 1;
    }
    false
}

fn copy_ticket(position: &Vec<usize>) -> (ticket: Vec<usize>)
    ensures
        ticket@ == position@,
{
    let mut ticket: Vec<usize> = Vec::new();
    let mut i: usize = 0;
    while i < position.len()
        invariant
            i <= position@.len(),
            ticket@ == position@.take(i as int),
        decreases position@.len() - i,
    {
        ticket.push(position[i]);
        assert(ticket@ =~= position@.take(i + 1));
        i += 1;
    }
    assert(position@.take(position@.len() as int) =~= position@);
    ticket
}

/// A parallel node is done when all its nodes are.
fn gather(children: Vec<Progress>) -> (progress: Progress)
    ensures
        progress@ == gathered(progress_of(children@)),
{
    let mut i: usize = 0;
    while i < children.len()
        invariant
            i <= children@.len(),
            forall|j: int| 0 <= j < i ==> (#[trigger] progress_of(children@)[j]) is Done,
        decreases children@.len() - i,
    {
        match &children[i] {
            Progress::Done => {},
            _ => {
                assert(!(progress_of(children@)[i as int] is Done));
                assert(Progress::Parallel { children }@->Parallel_0 =~= progress_of(children@));
                return Progress::Parallel { children };
            },
        }
        i += 1;
    }
    Progress::Done
}

/// Sets the node at `position` going: makes its calls ready, at the end of
/// `calls`, and says where the node stands.
fn launch(
    node: &PlanNode,
    response: &GraphQLResponse,
    context: &ExecutionContext<'_, '_>,
    position: &mut Vec<usize>,
    calls: &mut Vec<Call>,
) -> (result: Result<Progress, ExecError>)
    ensures
        final(position)@ == old(position)@,
        launch_agrees(
            result,
            launched(*node, response.data@, setting_of(*context), places_of(old(position)@)),
            old(calls)@,
            final(calls)@,
        ),
    decreases node, 0nat,
{
    let ghost before = calls@;
    let ghost here = places_of(position@);
    match node {
        PlanNode::Fetch(fetch) => match begin_fetch(fetch, context.request_context) {
            Err(error) => Err(error),
            Ok(operation) => {
                if !knows_service(context.service_names, &operation.service_name) {
                    return Err(ExecError::UnknownService);
                }
                let call = Call { ticket: copy_ticket(position), operation };
                calls.push(call);
                assert(calls_of(calls@) =~= calls_of(before) + seq![call@]);
                Ok(Progress::Fetching)
            },
        },
        PlanNode::Flatten(flatten) => match begin_flatten(
            flatten,
            response,
            context.request_context,
        ) {
            Err(error) => Err(error),
            Ok(None) => {
                assert(calls_of(before) + Seq::<CallValue>::empty() =~= calls_of(before));
                Ok(Progress::Done)
            },
            Ok(Some(made)) => {
                if !knows_service(context.service_names, &made.operation.service_name) {
                    return Err(ExecError::UnknownService);
                }
                let FlattenCall { operation, inner_response, representations_to_entity } = made;
                let call = Call { ticket: copy_ticket(position), operation };
                calls.push(call);
                assert(calls_of(calls@) =~= calls_of(before) + seq![call@]);
                Ok(Progress::Flattening { inner: inner_response.data, representations_to_entity })
            },
        },
        PlanNode::Sequence { nodes } => launch_from(nodes, 0, response, context, position, calls),
        PlanNode::Parallel { nodes } => {
            let mut children: Vec<Progress> = Vec::new();
            let ghost setting = setting_of(*context);
            let mut i: usize = 0;
            assert(progress_of(children@) =~= Seq::<ProgressValue>::empty());
            assert(calls_of(before) + Seq::<CallValue>::empty() =~= calls_of(before));
            while i < nodes.len()
                invariant
                    i <= nodes@.len(),
                    node is Parallel && node->Parallel_nodes == nodes,
                    position@ == old(position)@,
                    here == places_of(position@),
                    setting == setting_of(*context),
                    launched_all(nodes@, i as nat, response.data@, setting, here) is Ok,
                    progress_of(children@) == launched_all(
                        nodes@,
                        i as nat,
                        response.data@,
                        setting,
                        here,
                    )->Ok_0.0,
                    calls_of(calls@) == calls_of(before) + launched_all(
                        nodes@,
                        i as nat,
                        response.data@,
                        setting,
                        here,
                    )->Ok_0.1,
                decreases nodes@.len() - i,
            {
                let ghost known = children@;
                let ghost made = launched_all(nodes@, i as nat, response.data@, setting, here)->Ok_0.1;
                position.push(i);
                assert(places_of(position@) =~= here.push(i as int));
                let started = launch(&nodes[i], response, context, position, calls);
                position.pop();
                assert(position@ =~= old(position)@);
                match started {
                    Ok(child) => {
                        children.push(child);
                        let ghost more = launched(
                            nodes@[i as int],
                            response.data@,
                            setting,
                            here.push(i as int),
                        )->Ok_0.1;
                        assert(progress_of(children@) =~= progress_of(known).push(child@));
                        assert(calls_of(before) + made + more =~= calls_of(before) + (made + more));
                    },
                    Err(error) => {
                        proof {
                            lemma_launched_all_fails(
                                nodes@,
                                (i + 1) as nat,
                                nodes@.len(),
                                response.data@,
                                setting,
                                here,
                            );
                        }
                        return Err(error);
                    },
                }
                i += 1;
            }
            Ok(gather(children))
        },
    }
}

/// Sets the nodes of a sequence going from number `from` on, one after the
/// other for as long as each is done at once.
fn launch_from(
    nodes: &Vec<PlanNode>,
    from: usize,
    response: &GraphQLResponse,
    context: &ExecutionContext<'_, '_>,
    position: &mut Vec<usize>,
    calls: &mut Vec<Call>,
) -> (result: Result<Progress, ExecError>)
    ensures
        final(position)@ == old(position)@,
        launch_agrees(
            result,
            launched_from(
                nodes@,
                from as nat,
                response.data@,
                setting_of(*context),
                places_of(old(position)@),
            ),
            old(calls)@,
            final(calls)@,
        ),
    decreases nodes, nodes@.len() - from,
{
    let ghost before = calls@;
    let ghost here = places_of(position@);
    let ghost setting = setting_of(*context);
    if from >= nodes.len() {
        assert(calls_of(before) + Seq::<CallValue>::empty() =~= calls_of(before));
        return Ok(Progress::Done);
    }
    position.push(from);
    assert(places_of(position@) =~= here.push(from as int));
    let started = launch(&nodes[from], response, context, position, calls);
    position.pop();
    assert(position@ =~= old(position)@);
    let ghost first = launched(nodes@[from as int], response.data@, setting, here.push(from as int));
    match started {
        Err(error) => Err(error),
        Ok(Progress::Done) => {
            let next = launch_from(nodes, from + 1, response, context, position, calls);
            proof {
                let rest = launched_from(nodes@, (from + 1) as nat, response.data@, setting, here);
                if rest is Ok {
                    assert(calls_of(before) + first->Ok_0.1 + rest->Ok_0.1 =~= calls_of(before) + (
                    first->Ok_0.1 + rest->Ok_0.1));
                }
            }
            next
        },
        Ok(current) => Ok(Progress::Sequence { at: from, current: Box::new(current) }),
    }
}

/// Whether what settling returned, what it made of the response, and the
/// calls that it added, are what `expected` says.
pub open spec fn settle_agrees(
    result: Result<Progress, ExecError>,
    expected: Result<(ProgressValue, JsonValue, Seq<CallValue>), ExecError>,
    response: GraphQLResponse,
    before: Seq<Call>,
    after: Seq<Call>,
) -> bool {
    match result {
        Ok(progress) => expected is Ok && progress@ == expected->Ok_0.0 && response.data@
            == expected->Ok_0.1 && calls_of(after) == calls_of(before) + expected->Ok_0.2,
        Err(error) => expected == Err::<(ProgressValue, JsonValue, Seq<CallValue>), ExecError>(
            error,
        ),
    }
}

/// Takes in the answer `reply` to the call with `ticket` at the node at
/// `position`, which the first `depth` steps of the ticket lead to.
fn settle(
    node: &PlanNode,
    progress: Progress,
    response: &mut GraphQLResponse,
    context: &ExecutionContext<'_, '_>,
    ticket: &[usize],
    depth: usize,
    position: &mut Vec<usize>,
    reply: GraphQLResponse,
    calls: &mut Vec<Call>,
) -> (result: Result<Progress, ExecError>)
    ensures
        final(position)@ == old(position)@,
        settle_agrees(
            result,
            settled(
                *node,
                progress@,
                old(response).data@,
                setting_of(*context),
                places_of(ticket@),
                depth as nat,
                places_of(old(position)@),
                reply.data@,
            ),
            *final(response),
            old(calls)@,
            final(calls)@,
        ),
        result is Ok ==> errors_of(final(response).errors) == merged_errors(
            errors_of(old(response).errors),
            errors_of(reply.errors),
        ),
    decreases node,
{
    let ghost before = calls@;
    let ghost here = places_of(position@);
    let ghost setting = setting_of(*context);
    let ghost steps = places_of(ticket@);
    assert(calls_of(before) + Seq::<CallValue>::empty() =~= calls_of(before));
    match node {
        PlanNode::Fetch(_) => match progress {
            Progress::Fetching => {
                if depth == ticket.len() {
                    response.merge(reply);
                    Ok(Progress::Done)
                } else {
                    Err(ExecError::UnexpectedReply)
                }
            },
            _ => Err(ExecError::UnexpectedReply),
        },
        PlanNode::Flatten(flatten) => match progress {
            Progress::Flattening { inner, representations_to_entity } => {
                if depth == ticket.len() {
                    let inner_response = GraphQLResponse { data: inner, errors: None };
                    match finish_flatten(
                        flatten,
                        inner_response,
                        &representations_to_entity,
                        response,
                        reply,
                    ) {
                        Ok(()) => Ok(Progress::Done),
                        Err(error) => Err(error),
                    }
                } else {
                    Err(ExecError::UnexpectedReply)
                }
            },
            _ => Err(ExecError::UnexpectedReply),
        },
        PlanNode::Sequence { nodes } => match progress {
            Progress::Sequence { at, current } => {
                if depth < ticket.len() && ticket[depth] == at && at < nodes.len() {
                    assert(steps[depth as int] == at);
                    position.push(at);
                    assert(places_of(position@) =~= here.push(at as int));
                    let ghost held = (*current)@;
                    let ghost errors = reply.errors;
                    let settled_here = settle(
                        &nodes[at],
                        *current,
                        response,
                        context,
                        ticket,
                        depth + 1,
                        position,
                        reply,
                        calls,
                    );
                    position.pop();
                    assert(position@ =~= old(position)@);
                    let ghost inner = settled(
                        nodes@[at as int],
                        held,
                        old(response).data@,
                        setting,
                        steps,
                        (depth + 1) as nat,
                        here.push(at as int),
                        reply.data@,
                    );
                    match settled_here {
                        Err(error) => Err(error),
                        Ok(Progress::Done) => {
                            let next = launch_from(nodes, at + 1, response, context, position, calls);
                            proof {
                                let rest = launched_from(
                                    nodes@,
                                    (at + 1) as nat,
                                    response.data@,
                                    setting,
                                    here,
                                );
                                if rest is Ok {
                                    assert(calls_of(before) + inner->Ok_0.2 + rest->Ok_0.1
                                        =~= calls_of(before) + (inner->Ok_0.2 + rest->Ok_0.1));
                                }
                            }
                            next
                        },
                        Ok(current) => Ok(Progress::Sequence { at, current: Box::new(current) }),
                    }
                } else {
                    Err(ExecError::UnexpectedReply)
                }
            },
            _ => Err(ExecError::UnexpectedReply),
        },
        PlanNode::Parallel { nodes } => match progress {
            Progress::Parallel { children } => {
                if depth < ticket.len() && ticket[depth] < nodes.len() && children.len()
                    == nodes.len() {
                    let which = ticket[depth];
                    assert(steps[depth as int] == which);
                    let mut children = children;
                    let ghost known = progress_of(children@);
                    assert(known =~= progress@->Parallel_0);
                    let mut child = Progress::Done;
                    core::mem::swap(&mut children[which], &mut child);
                    position.push(which);
                    assert(places_of(position@) =~= here.push(which as int));
                    let settled_here = settle(
                        &nodes[which],
                        child,
                        response,
                        context,
                        ticket,
                        depth + 1,
                        position,
                        reply,
                        calls,
                    );
                    position.pop();
                    assert(position@ =~= old(position)@);
                    match settled_here {
                        Err(error) => Err(error),
                        Ok(child) => {
                            children[which] = child;
                            assert(progress_of(children@) =~= known.update(which as int, child@));
                            Ok(gather(children))
                        },
                    }
                } else {
                    Err(ExecError::UnexpectedReply)
                }
            },
            _ => Err(ExecError::UnexpectedReply),
        },
    }
}

/// A walk of a query plan: the response as far as it has come, and how far
/// each node of the plan has come.
#[derive(Debug)]
pub struct Execution {
    pub response: GraphQLResponse,
    pub progress: Progress,
}

/// Starts the walk of `query_plan` with an empty response, and hands out
/// the calls that the plan makes at once. A plan without a node is refused:
/// it asks for introspection.
pub fn execute_query_plan(query_plan: &QueryPlan, context: &ExecutionContext<'_, '_>) -> (result:
    Result<(Execution, Vec<Call>), ExecError>)
    ensures
        match result {
            Ok((execution, calls)) => {
                &&& query_plan.node is Some
                &&& launched(
                    query_plan.node->0,
                    JsonValue::Null,
                    setting_of(*context),
                    Seq::empty(),
                ) == Ok::<(ProgressValue, Seq<CallValue>), ExecError>(
                    (execution.progress@, calls_of(calls@)),
                )
                &&& execution.response.data == Json::Null
                &&& execution.response.errors is None
            },
            Err(error) => match query_plan.node {
                None => error == ExecError::IntrospectionNotSupported,
                Some(node) => launched(node, JsonValue::Null, setting_of(*context), Seq::empty())
                    == Err::<(ProgressValue, Seq<CallValue>), ExecError>(error),
            },
        },
{
    match &query_plan.node {
        None => Err(ExecError::IntrospectionNotSupported),
        Some(node) => {
            let response = GraphQLResponse { data: Json::Null, errors: None };
            let mut position: Vec<usize> = Vec::new();
            let mut calls: Vec<Call> = Vec::new();
            assert(places_of(position@) =~= Seq::<int>::empty());
            assert(calls_of(calls@) =~= Seq::<CallValue>::empty());
            match launch(node, &response, context, &mut position, &mut calls) {
                Ok(progress) => {
                    assert(Seq::<CallValue>::empty() + calls_of(calls@) =~= calls_of(calls@));
                    Ok((Execution { response, progress }, calls))
                },
                Err(error) => Err(error),
            }
        },
    }
}

impl Execution {
    /// Whether the walk has come to its end: no call is waited for.
    pub fn is_finished(&self) -> (done: bool)
        ensures
            done == (self.progress@ is Done),
    {
        matches!(self.progress, Progress::Done)
    }

    /// Gives up the walk for the response as far as it has come.
    pub fn into_response(self) -> (response: GraphQLResponse)
        ensures
            response == self.response,
    {
        self.response
    }

    /// Takes in the answer to the call with `ticket`, and hands out the
    /// calls that this sets off. A call that failed ends the walk, and so
    /// does an answer that nobody waits for.
    pub fn deliver(
        self,
        query_plan: &QueryPlan,
        context: &ExecutionContext<'_, '_>,
        ticket: &[usize],
        reply: Reply,
    ) -> (result: Result<(Execution, Vec<Call>), ExecError>)
        ensures
            match reply {
                Reply::Failure => result matches Err(error) && error == ExecError::Transport,
                Reply::Response(received) => match query_plan.node {
                    None => result matches Err(error) && error == ExecError::UnexpectedReply,
                    Some(node) => match result {
                        Ok((execution, calls)) => {
                            &&& settled(
                                node,
                                self.progress@,
                                self.response.data@,
                                setting_of(*context),
                                places_of(ticket@),
                                0,
                                Seq::empty(),
                                received.data@,
                            ) == Ok::<(ProgressValue, JsonValue, Seq<CallValue>), ExecError>(
                                (execution.progress@, execution.response.data@, calls_of(calls@)),
                            )
                            &&& errors_of(execution.response.errors) == merged_errors(
                                errors_of(self.response.errors),
                                errors_of(received.errors),
                            )
                        },
                        Err(error) => settled(
                            node,
                            self.progress@,
                            self.response.data@,
                            setting_of(*context),
                            places_of(ticket@),
                            0,
                            Seq::empty(),
                            received.data@,
                        ) == Err::<(ProgressValue, JsonValue, Seq<CallValue>), ExecError>(error),
                    },
                },
            },
    {
        let received = match reply {
            Reply::Response(received) => received,
            Reply::Failure => {
                return Err(ExecError::Transport);
            },
        };
        let node = match &query_plan.node {
            Some(node) => node,
            None => {
                return Err(ExecError::UnexpectedReply);
            },
        };
        let Execution { response, progress } = self;
        let mut response = response;
        let mut position: Vec<usize> = Vec::new();
        let mut calls: Vec<Call> = Vec::new();
        assert(places_of(position@) =~= Seq::<int>::empty());
        assert(calls_of(calls@) =~= Seq::<CallValue>::empty());
        match settle(
            node,
            progress,
            &mut response,
            context,
            ticket,
            0,
            &mut position,
            received,
            &mut calls,
        ) {
            Ok(progress) => {
                assert(Seq::<CallValue>::empty() + calls_of(calls@) =~= calls_of(calls@));
                Ok((Execution { response, progress }, calls))
            },
            Err(error) => Err(error),
        }
    }
}

/// The number of calls that a walk waits for: one for each fetch and each
/// flatten node whose call is out.
pub open spec fn waiting(progress: ProgressValue) -> nat
    decreases progress,
{
    match progress {
        ProgressValue::Fetching => 1,
        ProgressValue::Flattening(_, _) => 1,
        ProgressValue::Sequence(_, current) => waiting(*current),
        ProgressValue::Parallel(children) => waiting_all(children),
        ProgressValue::Done => 0,
    }
}

/// The number of calls that a list of nodes waits for.
pub open spec fn waiting_all(children: Seq<ProgressValue>) -> nat
    decreases children,
{
    if children.len() == 0 {
        0
    } else {
        waiting_all(children.drop_last()) + waiting(children.last())
    }
}

/// Whether a progress is one that a walk can be in: what is under way in a
/// sequence is not done, and neither is all of a parallel node.
pub open spec fn under_way(progress: ProgressValue) -> bool
    decreases progress,
{
    match progress {
        ProgressValue::Sequence(_, current) => !(*current is Done) && under_way(*current),
        ProgressValue::Parallel(children) => (exists|i: int|
            0 <= i < children.len() && !((#[trigger] children[i]) is Done)) && forall|i: int|
            0 <= i < children.len() ==> under_way(#[trigger] children[i]),
        _ => true,
    }
}

proof fn lemma_waiting_all_counts(children: Seq<ProgressValue>, i: int)
    requires
        0 <= i < children.len(),
    ensures
        waiting_all(children) >= waiting(children[i]),
    decreases children.len(),
{
    if i < children.len() - 1 {
        assert(children.drop_last()[i] == children[i]);
        lemma_waiting_all_counts(children.drop_last(), i);
    }
}

proof fn lemma_waiting_all_done(children: Seq<ProgressValue>)
    requires
        forall|i: int| 0 <= i < children.len() ==> (#[trigger] children[i]) is Done,
    ensures
        waiting_all(children) == 0,
    decreases children.len(),
{
    if children.len() > 0 {
        assert forall|i: int| 0 <= i < children.drop_last().len() implies (
        #[trigger] children.drop_last()[i]) is Done by {
            assert(children[i] is Done);
        }
        lemma_waiting_all_done(children.drop_last());
        assert(children[children.len() - 1] is Done);
        assert(waiting(children.last()) == 0);
    }
}

proof fn lemma_waiting_all_update(children: Seq<ProgressValue>, i: int, child: ProgressValue)
    requires
        0 <= i < children.len(),
    ensures
        waiting_all(children.update(i, child)) + waiting(children[i]) == waiting_all(children)
            + waiting(child),
    decreases children.len(),
{
    let after = children.update(i, child);
    if i < children.len() - 1 {
        assert(after.drop_last() =~= children.drop_last().update(i, child));
        assert(children.drop_last()[i] == children[i]);
        lemma_waiting_all_update(children.drop_last(), i, child);
    } else {
        assert(after.drop_last() =~= children.drop_last());
    }
}

/// A walk that is under way and not done waits for a call.
proof fn lemma_under_way_waits(progress: ProgressValue)
    requires
        under_way(progress),
        !(progress is Done),
    ensures
        waiting(progress) > 0,
    decreases progress,
{
    match progress {
        ProgressValue::Sequence(_, current) => {
            lemma_under_way_waits(*current);
        },
        ProgressValue::Parallel(children) => {
            let i = choose|i: int| 0 <= i < children.len() && !((#[trigger] children[i]) is Done);
            assert(under_way(children[i]));
            lemma_under_way_waits(children[i]);
            lemma_waiting_all_counts(children, i);
        },
        _ => {},
    }
}

proof fn lemma_gathered(children: Seq<ProgressValue>)
    requires
        forall|i: int| 0 <= i < children.len() ==> under_way(#[trigger] children[i]),
    ensures
        under_way(gathered(children)),
        waiting(gathered(children)) == waiting_all(children),
{
    if forall|i: int| 0 <= i < children.len() ==> (#[trigger] children[i]) is Done {
        lemma_waiting_all_done(children);
    }
}

proof fn lemma_launched(node: PlanNode, data: JsonValue, setting: Setting, position: Seq<int>)
    requires
        launched(node, data, setting, position) is Ok,
    ensures
        under_way(launched(node, data, setting, position)->Ok_0.0),
        waiting(launched(node, data, setting, position)->Ok_0.0) == launched(
            node,
            data,
            setting,
            position,
        )->Ok_0.1.len(),
    decreases node, 0nat,
{
    match node {
        PlanNode::Sequence { nodes } => {
            lemma_launched_from(nodes@, 0, data, setting, position);
        },
        PlanNode::Parallel { nodes } => {
            lemma_launched_all(nodes@, nodes@.len(), data, setting, position);
            lemma_gathered(launched_all(nodes@, nodes@.len(), data, setting, position)->Ok_0.0);
        },
        _ => {},
    }
}

proof fn lemma_launched_from(
    nodes: Seq<PlanNode>,
    from: nat,
    data: JsonValue,
    setting: Setting,
    position: Seq<int>,
)
    requires
        launched_from(nodes, from, data, setting, position) is Ok,
    ensures
        under_way(launched_from(nodes, from, data, setting, position)->Ok_0.0),
        waiting(launched_from(nodes, from, data, setting, position)->Ok_0.0) == launched_from(
            nodes,
            from,
            data,
            setting,
            position,
        )->Ok_0.1.len(),
    decreases nodes, nodes.len() - from,
{
    if from < nodes.len() {
        lemma_launched(nodes[from as int], data, setting, position.push(from as int));
        let first = launched(nodes[from as int], data, setting, position.push(from as int))->Ok_0;
        if first.0 is Done {
            lemma_launched_from(nodes, from + 1, data, setting, position);
        }
    }
}

proof fn lemma_launched_all(
    nodes: Seq<PlanNode>,
    n: nat,
    data: JsonValue,
    setting: Setting,
    position: Seq<int>,
)
    requires
        n <= nodes.len(),
        launched_all(nodes, n, data, setting, position) is Ok,
    ensures
        launched_all(nodes, n, data, setting, position)->Ok_0.0.len() == n,
        forall|i: int|
            0 <= i < n ==> under_way(
                #[trigger] launched_all(nodes, n, data, setting, position)->Ok_0.0[i],
            ),
        waiting_all(launched_all(nodes, n, data, setting, position)->Ok_0.0) == launched_all(
            nodes,
            n,
            data,
            setting,
            position,
        )->Ok_0.1.len(),
    decreases nodes, n,
{
    if n > 0 {
        lemma_launched_all(nodes, (n - 1) as nat, data, setting, position);
        lemma_launched(nodes[n - 1], data, setting, position.push(n - 1));
        let front = launched_all(nodes, (n - 1) as nat, data, setting, position)->Ok_0.0;
        let last = launched(nodes[n - 1], data, setting, position.push(n - 1))->Ok_0.0;
        assert(front.push(last).drop_last() =~= front);
    }
}

/// The calls that are handed out at the start are the calls that the walk
/// waits for, one for one, and the walk is done where there are none.
pub proof fn a_walk_starts_waiting_for_its_calls(
    node: PlanNode,
    data: JsonValue,
    setting: Setting,
    position: Seq<int>,
)
    requires
        launched(node, data, setting, position) is Ok,
    ensures
        under_way(launched(node, data, setting, position)->Ok_0.0),
        waiting(launched(node, data, setting, position)->Ok_0.0) == launched(
            node,
            data,
            setting,
            position,
        )->Ok_0.1.len(),
        launched(node, data, setting, position)->Ok_0.0 is Done <==> launched(
            node,
            data,
            setting,
            position,
        )->Ok_0.1.len() == 0,
{
    lemma_launched(node, data, setting, position);
    let progress = launched(node, data, setting, position)->Ok_0.0;
    if !(progress is Done) {
        lemma_under_way_waits(progress);
    }
}

/// No call is lost and none is made up. An answer that is taken in settles
/// one call, and the calls that the walk waits for afterwards are the
/// others that it waited for and those that the answer set off. So the walk
/// is done when, and only when, every call that was handed out has been
/// answered.
pub proof fn a_walk_waits_for_the_calls_that_are_out(
    node: PlanNode,
    progress: ProgressValue,
    data: JsonValue,
    setting: Setting,
    ticket: Seq<int>,
    depth: nat,
    position: Seq<int>,
    reply: JsonValue,
)
    requires
        under_way(progress),
        settled(node, progress, data, setting, ticket, depth, position, reply) is Ok,
    ensures
        under_way(settled(node, progress, data, setting, ticket, depth, position, reply)->Ok_0.0),
        waiting(settled(node, progress, data, setting, ticket, depth, position, reply)->Ok_0.0) + 1
            == waiting(progress) + settled(
            node,
            progress,
            data,
            setting,
            ticket,
            depth,
            position,
            reply,
        )->Ok_0.2.len(),
        settled(node, progress, data, setting, ticket, depth, position, reply)->Ok_0.0 is Done
            <==> waiting(
            settled(node, progress, data, setting, ticket, depth, position, reply)->Ok_0.0,
        ) == 0,
    decreases node,
{
    let result = settled(node, progress, data, setting, ticket, depth, position, reply)->Ok_0;
    match (node, progress) {
        (PlanNode::Sequence { nodes }, ProgressValue::Sequence(at, current)) => {
            a_walk_waits_for_the_calls_that_are_out(
                nodes@[at],
                *current,
                data,
                setting,
                ticket,
                depth + 1,
                position.push(at),
                reply,
            );
            let inner = settled(
                nodes@[at],
                *current,
                data,
                setting,
                ticket,
                depth + 1,
                position.push(at),
                reply,
            )->Ok_0;
            lemma_under_way_waits(*current);
            if inner.0 is Done {
                lemma_launched_from(nodes@, (at + 1) as nat, inner.1, setting, position);
            }
        },
        (PlanNode::Parallel { nodes }, ProgressValue::Parallel(children)) => {
            let which = ticket[depth as int];
            assert(under_way(children[which]));
            a_walk_waits_for_the_calls_that_are_out(
                nodes@[which],
                children[which],
                data,
                setting,
                ticket,
                depth + 1,
                position.push(which),
                reply,
            );
            let inner = settled(
                nodes@[which],
                children[which],
                data,
                setting,
                ticket,
                depth + 1,
                position.push(which),
                reply,
            )->Ok_0;
            let after = children.update(which, inner.0);
            lemma_waiting_all_update(children, which, inner.0);
            assert forall|i: int| 0 <= i < after.len() implies under_way(#[trigger] after[i]) by {
                if i != which {
                    assert(under_way(children[i]));
                }
            }
            lemma_gathered(after);
        },
        _ => {},
    }
    if !(result.0 is Done) {
        lemma_under_way_waits(result.0);
    }
}

} // verus!
