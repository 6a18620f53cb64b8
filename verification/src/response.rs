//! What goes over the wire between a client, the gateway and a subgraph:
//! the request, and the response with its data and its errors.
use crate::deep_merge::{deep_merge, merged};
use crate::json::{Json, JsonObject};
use vstd::prelude::*;

verus! {

/// A GraphQL request as a client sends it.
#[derive(Debug)]
pub struct GraphQLRequest {
    pub query: String,
    pub operation_name: Option<String>,
    pub variables: Option<Json>,
}

/// Extensions to an error: a map from names to JSON values.
#[derive(Debug)]
pub struct ErrorExtensionValues(pub JsonObject);

/// An error with a message and optional extensions.
#[derive(Debug)]
pub struct GraphQLError {
    /// The error message.
    pub message: String,
    /// Extensions to the error.
    pub extensions: Option<ErrorExtensionValues>,
}

/// A GraphQL response: the data gathered so far and the errors reported so
/// far.
#[derive(Debug)]
pub struct GraphQLResponse {
    pub data: Json,
    pub errors: Option<Vec<GraphQLError>>,
}

/// One header of a request: its name and the bytes of its value.
#[derive(Debug)]
pub struct Header {
    pub name: String,
    pub value: Vec<u8>,
}

/// A request together with the headers that it came with.
#[derive(Debug)]
pub struct RequestContext {
    pub graphql_request: GraphQLRequest,
    pub header_map: Vec<Header>,
}

/// The errors of a response after `added` was merged into `held`: the added
/// errors come after the held ones, and where nothing is added nothing
/// changes.
pub open spec fn merged_errors(
    held: Option<Seq<GraphQLError>>,
    added: Option<Seq<GraphQLError>>,
) -> Option<Seq<GraphQLError>> {
    match added {
        None => held,
        Some(new) => match held {
            None => Some(new),
            Some(known) => Some(known + new),
        },
    }
}

/// The errors of a list, or of none.
pub open spec fn errors_of(errors: Option<Vec<GraphQLError>>) -> Option<Seq<GraphQLError>> {
    match errors {
        None => None,
        Some(list) => Some(list@),
    }
}

/// Whether `value` is null: null data is left out of a response on the
/// wire.
pub fn value_is_null(value: &Json) -> (b: bool)
    ensures
        b == (value@ is Null),
{
    value.is_null()
}

/// Whether an error has no extensions to show: none at all, or an empty
/// map. Such extensions are left out of a response on the wire.
pub fn error_extensions_is_empty(values: &Option<ErrorExtensionValues>) -> (b: bool)
    ensures
        b == match values {
            Some(extensions) => extensions.0@.dom().len() == 0,
            None => true,
        },
{
    match values {
        Some(extensions) => extensions.0.len() == 0,
        None => true,
    }
}

impl GraphQLResponse {
    /// Merges the data and the errors of `other` into this response.
    pub fn merge(&mut self, other: GraphQLResponse)
        ensures
            final(self).data@ == merged(old(self).data@, other.data@),
            errors_of(final(self).errors) == merged_errors(
                errors_of(old(self).errors),
                errors_of(other.errors),
            ),
    {
        self.merge_data(other.data);
        self.merge_errors(other.errors);
    }

    /// Merges `data` into the data of this response.
    pub fn merge_data(&mut self, data: Json)
        ensures
            final(self).data@ == merged(old(self).data@, data@),
            final(self).errors == old(self).errors,
    {
        deep_merge(&mut self.data, data)
    }

    /// Appends `errors` to the errors of this response. Where it has none
    /// yet, it takes `errors` as they are.
    pub fn merge_errors(&mut self, errors: Option<Vec<GraphQLError>>)
        ensures
            final(self).data == old(self).data,
            errors_of(final(self).errors) == merged_errors(
                errors_of(old(self).errors),
                errors_of(errors),
            ),
    {
        if let Some(errors) = errors {
            match self.errors.take() {
                None => {
                    self.errors = Some(errors);
                },
                Some(known) => {
                    let mut known = known;
                    let mut errors = errors;
                    known.append(&mut errors);
                    self.errors = Some(known);
                },
            }
        }
    }
}

impl Default for GraphQLResponse {
    /// The empty response: null data and no errors.
    fn default() -> (response: GraphQLResponse)
        ensures
            response.data == Json::Null,
            response.errors is None,
    {
        GraphQLResponse { data: Json::Null, errors: None }
    }
}

} // verus!
