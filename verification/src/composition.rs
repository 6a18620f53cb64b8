//! What goes into the composition of subgraphs into a supergraph, and what
//! comes out of it.
use crate::text::join;
use vstd::prelude::*;

verus! {

/// Everything that is known of a subgraph when the supergraph is composed.
#[derive(Debug)]
pub struct ServiceDefinition {
    /// The name of the subgraph, by which the supergraph and the query
    /// plans refer to it.
    pub name: String,
    /// The URL at which the subgraph answers at run time.
    pub url: String,
    /// The schema of the subgraph, in the schema definition language.
    pub type_defs: String,
}

impl ServiceDefinition {
    /// Create a new [`ServiceDefinition`]
    pub fn new<N: Into<String>, U: Into<String>, D: Into<String>>(
        name: N,
        url: U,
        type_defs: D,
    ) -> (definition: ServiceDefinition)
        ensures
            call_ensures(<N as Into<String>>::into, (name,), definition.name),
            call_ensures(<U as Into<String>>::into, (url,), definition.url),
            call_ensures(<D as Into<String>>::into, (type_defs,), definition.type_defs),
    {
        ServiceDefinition { name: name.into(), url: url.into(), type_defs: type_defs.into() }
    }
}

/// An ordered stack of the subgraphs that, when composed in order, make up
/// the supergraph.
pub type ServiceList = Vec<ServiceDefinition>;

/// The `extensions` of an error of composition.
#[derive(Debug)]
pub struct CompositionErrorExtensions {
    /// The code of the error, such as `KEY_MISSING_ON_BASE`.
    pub code: String,
}

/// An error that kept the subgraphs from being composed.
#[derive(Debug)]
pub struct CompositionError {
    /// A description of the error for people to read.
    pub message: Option<String>,
    pub extensions: Option<CompositionErrorExtensions>,
}

/// The result of a composition. Without errors there is a supergraph.
#[derive(Debug)]
pub struct CompositionResult {
    /// The supergraph schema, as text.
    pub supergraph_sdl: Option<String>,
}

impl CompositionError {
    /// The code of the error, or `UNKNOWN` where it has none.
    pub open spec fn code_text(&self) -> Seq<char> {
        match self.extensions {
            Some(extensions) => extensions.code@,
            None => "UNKNOWN"@,
        }
    }

    /// Retrieve the error code from an error received during composition.
    pub fn code(&self) -> (code: &str)
        ensures
            code@ == self.code_text(),
    {
        match &self.extensions {
            Some(extensions) => extensions.code.as_str(),
            None => "UNKNOWN",
        }
    }

    /// The error as a line of text: the code, and after a colon the message
    /// where there is one.
    pub fn to_text(&self) -> (text: String)
        ensures
            text@ == match self.message {
                Some(message) => self.code_text() + ": "@ + message@,
                None => self.code_text(),
            },
    {
        match &self.message {
            Some(message) => {
                let mut parts: Vec<String> = Vec::new();
                parts.push(self.code().to_owned());
                parts.push(message.clone());
                proof {
                    let texts = crate::text::texts_of(parts@);
                    assert(texts.drop_last() =~= seq![self.code_text()]);
                    assert(texts.last() == message@);
                    assert(texts.drop_last().drop_last() =~= Seq::<Seq<char>>::empty());
                    assert(crate::text::joined(texts.drop_last(), ": "@) == self.code_text());
                }
                join(&parts, ": ")
            },
            None => self.code().to_owned(),
        }
    }
}

impl CompositionResult {
    /// The result as a line of text: nothing where there is a supergraph.
    pub fn to_text(&self) -> (text: String)
        ensures
            text@ == match self.supergraph_sdl {
                Some(_) => ""@,
                None => "composition error?"@,
            },
    {
        match &self.supergraph_sdl {
            Some(_) => "".to_owned(),
            None => "composition error?".to_owned(),
        }
    }
}

} // verus!
