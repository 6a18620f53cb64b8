//! A query plan to try things on: products, and what two subgraphs know of
//! the books among them.
use crate::plan::{
    FetchNode, Field, FlattenNode, InlineFragment, PlanNode, QueryPlan, Selection, SelectionSet,
};
use vstd::prelude::*;

verus! {

/// The selection of the field `name`, without alias and without
/// selections inside.
fn plain_field(name: &str) -> (selection: Selection)
    ensures
        selection is Field,
        selection->Field_0.alias is None,
        selection->Field_0.name@ == name@,
        selection->Field_0.selections is None,
{
    Selection::Field(Field { alias: None, name: name.to_owned(), selections: None })
}

/// What identifies a book: its `__typename` and `isbn`, and with `full`
/// its `title` and `year` too, all inside a fragment on `Book`.
fn book_selection(full: bool) -> (selections: SelectionSet)
    ensures
        selections@.len() == 1,
        selections@[0] is InlineFragment,
        selections@[0]->InlineFragment_0.type_condition is Some,
        selections@[0]->InlineFragment_0.type_condition->0@ == "Book"@,
        selections@[0]->InlineFragment_0.selections@.len() == (if full {
            4nat
        } else {
            2nat
        }),
{
    let mut fields: Vec<Selection> = Vec::new();
    fields.push(plain_field("__typename"));
    fields.push(plain_field("isbn"));
    if full {
        fields.push(plain_field("title"));
        fields.push(plain_field("year"));
    }
    let mut selections: Vec<Selection> = Vec::new();
    selections.push(
        Selection::InlineFragment(
            InlineFragment { type_condition: Some("Book".to_owned()), selections: fields },
        ),
    );
    selections
}

/// What `enrich_books` returns for `node`: a flatten node along `path` with
/// a fetch of entities from `service` inside.
pub open spec fn is_enrichment(node: PlanNode, path: Seq<Seq<char>>, service: Seq<char>) -> bool {
    &&& node is Flatten
    &&& crate::slice::path_keys(node->Flatten_0.path@) == path
    &&& *node->Flatten_0.node is Fetch
    &&& (*node->Flatten_0.node)->Fetch_0.service_name@ == service
    &&& (*node->Flatten_0.node)->Fetch_0.requires is Some
    &&& (*node->Flatten_0.node)->Fetch_0.variable_usages@.len() == 0
}

/// What `enrich_in_turn` returns for `path`: a sequence that asks `books`
/// and then `product`.
pub open spec fn is_enrichment_in_turn(node: PlanNode, path: Seq<Seq<char>>) -> bool {
    &&& node is Sequence
    &&& node->Sequence_nodes@.len() == 2
    &&& is_enrichment(node->Sequence_nodes@[0], path, "books"@)
    &&& is_enrichment(node->Sequence_nodes@[1], path, "product"@)
}

/// A flatten node that fetches, for the books along `path`, what `service`
/// knows of them.
fn enrich_books(path: Vec<String>, service: &str, full: bool, operation: &str) -> (node: PlanNode)
    ensures
        is_enrichment(node, crate::slice::path_keys(path@), service@),
{
    PlanNode::Flatten(
        FlattenNode {
            path,
            node: Box::new(
                PlanNode::Fetch(
                    FetchNode {
                        service_name: service.to_owned(),
                        variable_usages: Vec::new(),
                        requires: Some(book_selection(full)),
                        operation: operation.to_owned(),
                    },
                ),
            ),
        },
    )
}

/// First what the subgraph `books` knows of the books along `path`, then
/// what `product` knows of them.
fn enrich_in_turn(path: &Vec<String>) -> (node: PlanNode)
    ensures
        is_enrichment_in_turn(node, crate::slice::path_keys(path@)),
{
    let mut first: Vec<String> = Vec::new();
    let mut second: Vec<String> = Vec::new();
    let mut i: usize = 0;
    while i < path.len()
        invariant
            i <= path@.len(),
            first@.len() == i,
            second@.len() == i,
            forall|j: int| 0 <= j < i ==> (#[trigger] first@[j])@ == path@[j]@,
            forall|j: int| 0 <= j < i ==> (#[trigger] second@[j])@ == path@[j]@,
        decreases path@.len() - i,
    {
        first.push(path[i].clone());
        second.push(path[i].clone());
        i += 1;
    }
    assert(crate::slice::path_keys(first@) =~= crate::slice::path_keys(path@));
    assert(crate::slice::path_keys(second@) =~= crate::slice::path_keys(path@));
    let mut nodes: Vec<PlanNode> = Vec::new();
    nodes.push(
        enrich_books(
            first,
            "books",
            false,
            "query($representations:[_Any!]!){_entities(representations:$representations){...on Book{__typename isbn title year}}}",
        ),
    );
    nodes.push(
        enrich_books(
            second,
            "product",
            true,
            "query($representations:[_Any!]!){_entities(representations:$representations){...on Book{name}}}",
        ),
    );
    PlanNode::Sequence { nodes }
}

/// A plan that asks the subgraph `product` for the top products and for
/// one product, and then, at the same time for the two, asks `books` and
/// `product` in turn for what they know of the books among them.
pub fn query_plan() -> (plan: QueryPlan)
    ensures
        plan.node is Some,
        plan.node->0 is Sequence,
        plan.node->0->Sequence_nodes@.len() == 2,
        plan.node->0->Sequence_nodes@[0] is Fetch,
        plan.node->0->Sequence_nodes@[0]->Fetch_0.service_name@ == "product"@,
        plan.node->0->Sequence_nodes@[0]->Fetch_0.requires is None,
        plan.node->0->Sequence_nodes@[0]->Fetch_0.variable_usages@.len() == 0,
        plan.node->0->Sequence_nodes@[1] is Parallel,
        plan.node->0->Sequence_nodes@[1]->Parallel_nodes@.len() == 2,
        is_enrichment_in_turn(
            plan.node->0->Sequence_nodes@[1]->Parallel_nodes@[0],
            seq!["topProducts"@, "@"@],
        ),
        is_enrichment_in_turn(
            plan.node->0->Sequence_nodes@[1]->Parallel_nodes@[1],
            seq!["product"@],
        ),
{
    let mut top: Vec<String> = Vec::new();
    top.push("topProducts".to_owned());
    top.push("@".to_owned());
    let mut one: Vec<String> = Vec::new();
    one.push("product".to_owned());
    assert(crate::slice::path_keys(top@) =~= seq!["topProducts"@, "@"@]);
    assert(crate::slice::path_keys(one@) =~= seq!["product"@]);
    let mut branches: Vec<PlanNode> = Vec::new();
    branches.push(enrich_in_turn(&top));
    branches.push(enrich_in_turn(&one));
    let mut nodes: Vec<PlanNode> = Vec::new();
    nodes.push(
        PlanNode::Fetch(
            FetchNode {
                service_name: "product".to_owned(),
                variable_usages: Vec::new(),
                requires: None,
                operation: "{topProducts{__typename ...on Book{__typename isbn}...on Furniture{name}}product(upc:\"1\"){__typename ...on Book{__typename isbn}...on Furniture{name}}}".to_owned(),
            },
        ),
    );
    nodes.push(PlanNode::Parallel { nodes: branches });
    QueryPlan { node: Some(PlanNode::Sequence { nodes }) }
}

} // verus!
