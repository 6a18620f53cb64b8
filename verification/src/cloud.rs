//! What the Apollo cloud answers, and what is made of it.
#![allow(non_snake_case)]

use crate::text::{join, joined, texts_of};
use vstd::prelude::*;

verus! {

/// The variables of the operation that creates a graph.
#[derive(Debug)]
pub struct CreateGraphVariables {
    pub graphID: String,
    pub accountID: String,
}

#[derive(Debug)]
pub struct CreateGraphResponseApiKey {
    pub token: String,
}

#[derive(Debug)]
pub struct CreateGraphResponseNewService {
    pub id: String,
    pub apiKeys: Vec<CreateGraphResponseApiKey>,
}

#[derive(Debug)]
pub struct CreateGraphResponseData {
    pub newService: CreateGraphResponseNewService,
}

/// An error as the cloud reports it.
#[derive(Debug)]
pub struct GraphqlError {
    pub message: String,
}

/// The answer to the operation that creates a graph.
#[derive(Debug)]
pub struct CreateGraphResponse {
    pub data: Option<CreateGraphResponseData>,
    pub errors: Option<Vec<GraphqlError>>,
}

#[derive(Debug)]
pub struct GetOrgMembershipResponseAccount {
    pub id: String,
}

#[derive(Debug)]
pub struct GetOrgMembershipResponseMembership {
    pub account: GetOrgMembershipResponseAccount,
}

#[derive(Debug)]
pub struct GetOrgMembershipResposeMemberships {
    pub memberships: Vec<GetOrgMembershipResponseMembership>,
}

#[derive(Debug)]
pub struct GetOrgMembershipResponseMe {
    pub me: Option<GetOrgMembershipResposeMemberships>,
}

/// The answer to the question in which organizations the user is a member.
#[derive(Debug)]
pub struct GetOrgMembershipResponse {
    pub data: Option<GetOrgMembershipResponseMe>,
    pub errors: Option<Vec<GraphqlError>>,
}

/// Why an operation on the cloud came to nothing.
#[derive(Debug)]
pub struct GraphqlOperationError {
    pub message: String,
    pub user_error: bool,
}

/// The messages of a list of errors.
pub open spec fn messages_of(errors: Seq<GraphqlError>) -> Seq<Seq<char>> {
    Seq::new(errors.len(), |i: int| errors[i].message@)
}

/// The ids of the accounts of a list of memberships.
pub open spec fn accounts_of(memberships: Seq<GetOrgMembershipResponseMembership>) -> Seq<
    Seq<char>,
> {
    Seq::new(memberships.len(), |i: int| memberships[i].account.id@)
}

/// The token of the graph that was created, from the answer of the cloud.
///
/// Where the cloud reports errors, their messages come back, one to a
/// line. An answer without errors and without data is an error too. Else
/// the token is that of the first API key of the new graph.
pub fn created_graph_token(response: CreateGraphResponse) -> (result: Result<
    String,
    GraphqlOperationError,
>)
    requires
        response.errors is None && response.data is Some
            ==> response.data->0.newService.apiKeys@.len() > 0,
    ensures
        match result {
            Ok(token) => response.errors is None && response.data is Some && token@
                == response.data->0.newService.apiKeys@[0].token@,
            Err(error) => !error.user_error && match response.errors {
                Some(errors) => error.message@ == joined(messages_of(errors@), "\n"@),
                None => response.data is None && error.message@ == "Got no data????"@,
            },
        },
{
    if let Some(errors) = &response.errors {
        let mut messages: Vec<String> = Vec::new();
        let mut i: usize = 0;
        while i < errors.len()
            invariant
                i <= errors@.len(),
                messages@.len() == i,
                forall|j: int| 0 <= j < i ==> (#[trigger] messages@[j])@ == errors@[j].message@,
            decreases errors@.len() - i,
        {
            messages.push(errors[i].message.clone());
            i += 1;
        }
        assert(texts_of(messages@) =~= messages_of(errors@));
        return Err(GraphqlOperationError { message: join(&messages, "\n"), user_error: false });
    }
    match &response.data {
        Some(data) => Ok(data.newService.apiKeys[0].token.clone()),
        None => Err(
            GraphqlOperationError { message: "Got no data????".to_owned(), user_error: false },
        ),
    }
}

/// The ids of the accounts that the user is a member of, from the answer
/// of the cloud, in the order of the answer. An answer that does not know
/// the user means that the user could not be authenticated.
pub fn org_memberships(response: GetOrgMembershipResponse) -> (result: Result<Vec<String>, String>)
    requires
        response.data is Some,
    ensures
        match result {
            Ok(accounts) => response.data->0.me is Some && texts_of(accounts@) == accounts_of(
                response.data->0.me->0.memberships@,
            ),
            Err(message) => response.data->0.me is None && message@
                == "Could not authenticate. Please check that your auth token is up-to-date"@,
        },
{
    match response.data {
        Some(data) => match data.me {
            Some(me) => {
                let mut accounts: Vec<String> = Vec::new();
                let mut i: usize = 0;
                while i < me.memberships.len()
                    invariant
                        i <= me.memberships@.len(),
                        accounts@.len() == i,
                        forall|j: int|
                            0 <= j < i ==> (#[trigger] accounts@[j])@
                                == me.memberships@[j].account.id@,
                    decreases me.memberships@.len() - i,
                {
                    accounts.push(me.memberships[i].account.id.clone());
                    i += 1;
                }
                assert(texts_of(accounts@) =~= accounts_of(me.memberships@));
                Ok(accounts)
            },
            None => Err(
                "Could not authenticate. Please check that your auth token is up-to-date".to_owned(),
            ),
        },
        None => Err(String::new()),
    }
}

/// What to do next when a graph is to be created and an account has to own
/// it.
#[derive(Debug)]
pub enum AccountChoice {
    /// The user is a member of no organization: nothing can be created.
    NotAMember,
    /// This account owns the graph.
    Chosen(String),
    /// The user has to be asked, with this prompt.
    Ask(String),
}

/// Whether `account` is one of `accounts`.
pub open spec fn is_account(accounts: Seq<String>, account: Seq<char>) -> bool {
    exists|i: int| 0 <= i < accounts.len() && (#[trigger] accounts[i])@ == account
}

/// Picks the account that is to own a new graph. `answer` is what the user
/// said when asked, if the user was asked yet.
///
/// A user without accounts cannot create a graph. A user with one account
/// is not asked. Any other user is asked, with the list of the accounts,
/// and asked again for as long as the answer names none of them.
pub fn choose_account(accounts: &Vec<String>, answer: Option<&String>) -> (choice: AccountChoice)
    ensures
        match choice {
            AccountChoice::NotAMember => accounts@.len() == 0,
            AccountChoice::Chosen(account) => if accounts@.len() == 1 {
                account@ == accounts@[0]@
            } else {
                accounts@.len() > 1 && answer is Some && account@ == answer->0@ && is_account(
                    accounts@,
                    account@,
                )
            },
            AccountChoice::Ask(prompt) => accounts@.len() > 1 && match answer {
                None => prompt@
                    == "Please choose an organization to own the graph from the following list\n[ "@
                    + joined(texts_of(accounts@), ", "@) + " ]"@,
                Some(said) => !is_account(accounts@, said@) && prompt@
                    == "Invalid choice; please try again:"@,
            },
        },
{
    if accounts.len() == 0 {
        return AccountChoice::NotAMember;
    }
    if accounts.len() == 1 {
        return AccountChoice::Chosen(accounts[0].clone());
    }
    match answer {
        None => {
            let mut parts: Vec<String> = Vec::new();
            parts.push(
                "Please choose an organization to own the graph from the following list\n[ ".to_owned(),
            );
            parts.push(join(accounts, ", "));
            parts.push(" ]".to_owned());
            proof {
                reveal_strlit("");
                let texts = texts_of(parts@);
                let two = texts.drop_last();
                let one = two.drop_last();
                assert(joined(one, ""@) == texts[0]);
                assert(two.last() == texts[1]);
                assert(joined(two, ""@) =~= texts[0] + texts[1]);
                assert(joined(texts, ""@) =~= texts[0] + texts[1] + texts[2]);
            }
            AccountChoice::Ask(join(&parts, ""))
        },
        Some(said) => {
            let mut i: usize = 0;
            while i < accounts.len()
                invariant
                    i <= accounts@.len(),
                    accounts@.len() > 1,
                    answer == Some(said),
                    forall|j: int| 0 <= j < i ==> (#[trigger] accounts@[j])@ != said@,
                decreases accounts@.len() - i,
            {
                if accounts[i] == *said {
                    assert(is_account(accounts@, accounts@[i as int]@));
                    return AccountChoice::Chosen(said.clone());
                }
                i += 1;
            }
            AccountChoice::Ask("Invalid choice; please try again:".to_owned())
        },
    }
}

} // verus!
