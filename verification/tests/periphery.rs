use stargate::auth::{accept_key, check_auth_key};
use stargate::cloud::{
    choose_account, created_graph_token, org_memberships, AccountChoice, CreateGraphResponse,
    CreateGraphResponseApiKey, CreateGraphResponseData, CreateGraphResponseNewService,
    CreateGraphVariables, GetOrgMembershipResponse, GetOrgMembershipResponseAccount,
    GetOrgMembershipResponseMe, GetOrgMembershipResponseMembership,
    GetOrgMembershipResposeMemberships, GraphqlError,
};
use stargate::commands::{
    Apollo, Auth, AuthConfigure, AuthLogin, Create, CreateGraph, Print, Task,
};
use stargate::composition::{
    CompositionError, CompositionErrorExtensions, CompositionResult, ServiceDefinition,
};
use stargate::planner_error::QueryPlanError;
use stargate::text::trim_whitespace;

#[test]
fn a_service_definition_takes_what_it_is_given() {
    let definition = ServiceDefinition::new("users", "undefined", String::from("type User"));
    assert_eq!(definition.name, "users");
    assert_eq!(definition.url, "undefined");
    assert_eq!(definition.type_defs, "type User");
}

#[test]
fn the_code_of_a_composition_error() {
    let with = CompositionError {
        message: Some("no key".to_string()),
        extensions: Some(CompositionErrorExtensions { code: "KEY_NOT_SPECIFIED".to_string() }),
    };
    let without = CompositionError { message: None, extensions: None };
    assert_eq!(with.code(), "KEY_NOT_SPECIFIED");
    assert_eq!(without.code(), "UNKNOWN");
    assert_eq!(with.to_text(), "KEY_NOT_SPECIFIED: no key");
    assert_eq!(without.to_text(), "UNKNOWN");
}

#[test]
fn a_composition_result_as_text() {
    assert_eq!(CompositionResult { supergraph_sdl: Some("schema".to_string()) }.to_text(), "");
    assert_eq!(CompositionResult { supergraph_sdl: None }.to_text(), "composition error?");
}

#[test]
fn white_space_at_the_end_is_trimmed() {
    assert_eq!(trim_whitespace("user:a:b \n\t".to_string()), "user:a:b");
    assert_eq!(trim_whitespace("  a b".to_string()), "  a b");
    assert_eq!(trim_whitespace(" \u{2003}\n".to_string()), "");
    assert_eq!(trim_whitespace(String::new()), "");
}

#[test]
fn keys_of_the_right_shape_are_accepted() {
    assert_eq!(check_auth_key("user:abc:def\n".to_string()), Ok("user:abc:def".to_string()));
    assert_eq!(check_auth_key("service:x:y".to_string()), Ok("service:x:y".to_string()));
    assert_eq!(check_auth_key("internal:x:y  ".to_string()), Ok("internal:x:y".to_string()));
    let long = "a".repeat(63);
    let key = format!("user:{}:{}", long, long);
    assert_eq!(check_auth_key(key.clone()), Ok(key));
}

#[test]
fn keys_of_another_shape_are_refused() {
    let message =
        "key must match regex \"^(user|service|internal):([^:]{1,63}):([^:]{1,63})$\"".to_string();
    for bad in [
        "",
        "user:abc",
        "admin:abc:def",
        "user::def",
        "user:abc:def:ghi",
        " user:abc:def",
        "xuser:abc:def",
    ] {
        assert_eq!(check_auth_key(bad.to_string()), Err(message.clone()));
    }
    let long = "a".repeat(64);
    assert_eq!(check_auth_key(format!("user:{}:b", long)), Err(message.clone()));
    assert_eq!(accept_key("k".to_string(), None), Err(message.clone()));
    assert_eq!(accept_key("k".to_string(), Some(false)), Err(message));
    assert_eq!(accept_key("k".to_string(), Some(true)), Ok("k".to_string()));
}

#[test]
fn the_token_of_a_new_graph() {
    let response = CreateGraphResponse {
        data: Some(CreateGraphResponseData {
            newService: CreateGraphResponseNewService {
                id: "g".to_string(),
                apiKeys: vec![
                    CreateGraphResponseApiKey { token: "t1".to_string() },
                    CreateGraphResponseApiKey { token: "t2".to_string() },
                ],
            },
        }),
        errors: None,
    };
    assert_eq!(created_graph_token(response).ok(), Some("t1".to_string()));
}

#[test]
fn the_errors_of_the_cloud_come_back_one_to_a_line() {
    let response = CreateGraphResponse {
        data: None,
        errors: Some(vec![
            GraphqlError { message: "first".to_string() },
            GraphqlError { message: "second".to_string() },
        ]),
    };
    let error = created_graph_token(response).err().unwrap();
    assert_eq!(error.message, "first\nsecond");
    assert!(!error.user_error);
    let nothing = CreateGraphResponse { data: None, errors: None };
    let error = created_graph_token(nothing).err().unwrap();
    assert_eq!(error.message, "Got no data????");
    assert!(!error.user_error);
}

#[test]
fn the_accounts_of_a_user() {
    let response = GetOrgMembershipResponse {
        data: Some(GetOrgMembershipResponseMe {
            me: Some(GetOrgMembershipResposeMemberships {
                memberships: vec![
                    GetOrgMembershipResponseMembership {
                        account: GetOrgMembershipResponseAccount { id: "one".to_string() },
                    },
                    GetOrgMembershipResponseMembership {
                        account: GetOrgMembershipResponseAccount { id: "two".to_string() },
                    },
                ],
            }),
        }),
        errors: None,
    };
    assert_eq!(org_memberships(response), Ok(vec!["one".to_string(), "two".to_string()]));
    let unknown = GetOrgMembershipResponse {
        data: Some(GetOrgMembershipResponseMe { me: None }),
        errors: None,
    };
    assert_eq!(
        org_memberships(unknown),
        Err("Could not authenticate. Please check that your auth token is up-to-date".to_string())
    );
}

#[test]
fn the_account_that_owns_a_graph() {
    let none: Vec<String> = vec![];
    assert!(matches!(choose_account(&none, None), AccountChoice::NotAMember));
    let one = vec!["solo".to_string()];
    assert!(matches!(choose_account(&one, None), AccountChoice::Chosen(account) if account == "solo"));
    let two = vec!["a".to_string(), "b".to_string()];
    match choose_account(&two, None) {
        AccountChoice::Ask(prompt) => assert_eq!(
            prompt,
            "Please choose an organization to own the graph from the following list\n[ a, b ]"
        ),
        _ => panic!("the user has to be asked"),
    }
    match choose_account(&two, Some(&"c".to_string())) {
        AccountChoice::Ask(prompt) => assert_eq!(prompt, "Invalid choice; please try again:"),
        _ => panic!("the user has to be asked again"),
    }
    assert!(matches!(
        choose_account(&two, Some(&"b".to_string())),
        AccountChoice::Chosen(account) if account == "b"
    ));
}

#[test]
fn the_variables_of_create_graph_hold_both_ids() {
    let variables =
        CreateGraphVariables { graphID: "g".to_string(), accountID: "a".to_string() };
    assert_eq!(variables.graphID, "g");
    assert_eq!(variables.accountID, "a");
}

#[test]
fn each_command_line_has_its_task() {
    assert_eq!(Apollo::Print(Print { no_headers: true, files: vec![] }).task(), Task::Print);
    assert_eq!(Apollo::Create(Create::Graph(CreateGraph {})).task(), Task::CreateGraph);
    assert_eq!(Apollo::Auth(Auth::Login(AuthLogin {})).task(), Task::AuthLogin);
    assert_eq!(Apollo::Auth(Auth::Configure(AuthConfigure {})).task(), Task::AuthConfigure);
}

#[test]
fn planner_errors_in_words() {
    assert_eq!(
        QueryPlanError::FailedParsingSchema("x".to_string()).message(),
        "failed parsing schema"
    );
    assert_eq!(QueryPlanError::FailedParsingQuery("x".to_string()).message(), "failed parsing query");
    assert_eq!(
        QueryPlanError::InvalidQueryMultipleOperations.message(),
        "invalid query, multiple operations aren't supported"
    );
    assert_eq!(
        QueryPlanError::InvalidQuerySubscriptions.message(),
        "invalid query, subscriptions aren't supported"
    );
    assert_eq!(QueryPlanError::MissingField.message(), "expected a field where there was none");
    assert_eq!(
        QueryPlanError::MissingOperation.message(),
        "expected operation in document where there was none"
    );
    assert_eq!(
        QueryPlanError::MissingReturnType.message(),
        "expected a return type where there was none"
    );
    assert_eq!(QueryPlanError::MissingGroup.message(), "expected a group where there was none");
    assert_eq!(
        QueryPlanError::MissingTypeNameForField.message(),
        "expected a type name for a field where there was none"
    );
    assert_eq!(QueryPlanError::TODO.message(), "TODO");
}
