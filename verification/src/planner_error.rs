//! Why a query could not be planned.
use vstd::prelude::*;

verus! {

/// An error of the query planner. Where parsing failed, the error carries
/// what the parser said.
#[derive(Debug)]
pub enum QueryPlanError {
    FailedParsingSchema(String),
    FailedParsingQuery(String),
    InvalidQueryMultipleOperations,
    InvalidQuerySubscriptions,
    MissingField,
    MissingOperation,
    MissingReturnType,
    MissingGroup,
    MissingTypeNameForField,
    TODO,
}

impl QueryPlanError {
    /// The error in words.
    pub fn message(&self) -> (text: &'static str)
        ensures
            text@ == match self {
                QueryPlanError::FailedParsingSchema(_) => "failed parsing schema"@,
                QueryPlanError::FailedParsingQuery(_) => "failed parsing query"@,
                QueryPlanError::InvalidQueryMultipleOperations =>
                    "invalid query, multiple operations aren't supported"@,
                QueryPlanError::InvalidQuerySubscriptions =>
                    "invalid query, subscriptions aren't supported"@,
                QueryPlanError::MissingField => "expected a field where there was none"@,
                QueryPlanError::MissingOperation =>
                    "expected operation in document where there was none"@,
                QueryPlanError::MissingReturnType => "expected a return type where there was none"@,
                QueryPlanError::MissingGroup => "expected a group where there was none"@,
                QueryPlanError::MissingTypeNameForField =>
                    "expected a type name for a field where there was none"@,
                QueryPlanError::TODO => "TODO"@,
            },
    {
        match self {
            QueryPlanError::FailedParsingSchema(_) => "failed parsing schema",
            QueryPlanError::FailedParsingQuery(_) => "failed parsing query",
            QueryPlanError::InvalidQueryMultipleOperations =>
                "invalid query, multiple operations aren't supported",
            QueryPlanError::InvalidQuerySubscriptions =>
                "invalid query, subscriptions aren't supported",
            QueryPlanError::MissingField => "expected a field where there was none",
            QueryPlanError::MissingOperation =>
                "expected operation in document where there was none",
            QueryPlanError::MissingReturnType => "expected a return type where there was none",
            QueryPlanError::MissingGroup => "expected a group where there was none",
            QueryPlanError::MissingTypeNameForField =>
                "expected a type name for a field where there was none",
            QueryPlanError::TODO => "TODO",
        }
    }
}

} // verus!
