//! Query plans: what to fetch from which subgraph, in what order, and
//! where to put it.
use vstd::prelude::*;

verus! {

/// A list of selections.
pub type SelectionSet = Vec<Selection>;

/// A path into a response: field names, and `@` for every element of an
/// array.
pub type ResponsePath = Vec<String>;

/// One selection of a selection set.
#[derive(Debug)]
pub enum Selection {
    Field(Field),
    InlineFragment(InlineFragment),
}

/// The selection of a field, under its name or an alias, with the
/// selections inside it if it has any.
#[derive(Debug)]
pub struct Field {
    pub alias: Option<String>,
    pub name: String,
    pub selections: Option<SelectionSet>,
}

/// Selections that hold for values of one type only.
#[derive(Debug)]
pub struct InlineFragment {
    pub type_condition: Option<String>,
    pub selections: SelectionSet,
}

/// A call to one subgraph.
#[derive(Debug)]
pub struct FetchNode {
    pub service_name: String,
    /// The variables of the request that the operation uses.
    pub variable_usages: Vec<String>,
    /// What to take from each entity to tell the subgraph which entity is
    /// meant. Present on a fetch of entities and only there.
    pub requires: Option<SelectionSet>,
    /// The GraphQL document to send.
    pub operation: String,
}

/// A fetch of entities for the values that a path selects in the response.
#[derive(Debug)]
pub struct FlattenNode {
    pub path: ResponsePath,
    pub node: Box<PlanNode>,
}

/// A node of a query plan.
#[derive(Debug)]
pub enum PlanNode {
    /// Run the nodes one after the other.
    Sequence { nodes: Vec<PlanNode> },
    /// Run the nodes at the same time.
    Parallel { nodes: Vec<PlanNode> },
    Fetch(FetchNode),
    Flatten(FlattenNode),
}

/// A query plan. One without a node answers introspection only.
#[derive(Debug)]
pub struct QueryPlan {
    pub node: Option<PlanNode>,
}

impl Field {
    /// The name under which the field appears in a response: its alias if
    /// it has one, else its name.
    pub open spec fn response_key(&self) -> Seq<char> {
        match self.alias {
            Some(alias) => alias@,
            None => self.name@,
        }
    }

    /// The name under which the field appears in a response.
    pub fn response_name(&self) -> (name: &String)
        ensures
            name@ == self.response_key(),
    {
        match &self.alias {
            Some(alias) => alias,
            None => &self.name,
        }
    }
}

} // verus!
