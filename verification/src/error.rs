//! What can end the execution of a query plan before its time.
use vstd::prelude::*;

verus! {

/// Why a query plan could not be executed to its end. Errors that a
/// subgraph reports in its response are none of these: they are gathered in
/// the response.
#[derive(Clone, Copy, Debug, PartialEq, Eq, Structural)]
pub enum ExecError {
    /// The plan has no node: it asks for introspection.
    IntrospectionNotSupported,
    /// A fetch at the root of a plan says what it requires of entities.
    UnexpectedRequires,
    /// A fetch of entities does not say what it requires of them.
    MissingRequires,
    /// The node inside a flatten node is no fetch.
    FlattenWithoutFetch,
    /// The request has a variable of its own named `representations`.
    ReservedVariable,
    /// An entity lacks a field that the subgraph requires.
    MissingField,
    /// The `__typename` of an entity is no string.
    TypenameNotString,
    /// A path puts a wildcard on something that is no array, or a field
    /// name on an array.
    PathMismatch,
    /// The data to fetch entities for is neither an object nor an array.
    UnexpectedData,
    /// The response to a fetch of entities has no array `_entities`, or a
    /// shorter one than the representations that were sent.
    MissingEntities,
    /// The plan names a subgraph that is not known.
    UnknownService,
    /// The call to a subgraph failed.
    Transport,
    /// An answer came in for a call that is not waited for.
    UnexpectedReply,
}

impl ExecError {
    /// The error in words.
    pub open spec fn text(self) -> Seq<char> {
        match self {
            ExecError::IntrospectionNotSupported => "introspection not supported"@,
            ExecError::UnexpectedRequires =>
                "a fetch outside a flatten node must not require fields of entities"@,
            ExecError::MissingRequires => "a fetch of entities must require fields of them"@,
            ExecError::FlattenWithoutFetch => "the node in a flatten node must be a fetch node"@,
            ExecError::ReservedVariable =>
                "variables must not contain a key named 'representations'"@,
            ExecError::MissingField => "a required field was not found in the response"@,
            ExecError::TypenameNotString => "the __typename of an entity must be a string"@,
            ExecError::PathMismatch =>
                "the response does not have the shape that the path expects"@,
            ExecError::UnexpectedData => "entities can be fetched for an object or an array only"@,
            ExecError::MissingEntities =>
                "expected data._entities to contain the entities asked for"@,
            ExecError::UnknownService => "the plan names an unknown service"@,
            ExecError::Transport => "the call to a service failed"@,
            ExecError::UnexpectedReply => "an answer came in for a call that is not waited for"@,
        }
    }

    /// The error in words.
    pub fn message(&self) -> (text: &'static str)
        ensures
            text@ == self.text(),
    {
        match self {
            ExecError::IntrospectionNotSupported => "introspection not supported",
            ExecError::UnexpectedRequires =>
                "a fetch outside a flatten node must not require fields of entities",
            ExecError::MissingRequires => "a fetch of entities must require fields of them",
            ExecError::FlattenWithoutFetch => "the node in a flatten node must be a fetch node",
            ExecError::ReservedVariable => "variables must not contain a key named 'representations'",
            ExecError::MissingField => "a required field was not found in the response",
            ExecError::TypenameNotString => "the __typename of an entity must be a string",
            ExecError::PathMismatch => "the response does not have the shape that the path expects",
            ExecError::UnexpectedData => "entities can be fetched for an object or an array only",
            ExecError::MissingEntities => "expected data._entities to contain the entities asked for",
            ExecError::UnknownService => "the plan names an unknown service",
            ExecError::Transport => "the call to a service failed",
            ExecError::UnexpectedReply => "an answer came in for a call that is not waited for",
        }
    }
}

} // verus!
