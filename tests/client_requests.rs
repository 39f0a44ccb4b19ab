use devops_gantt::{check_status, AzureDevOpsClient, ClientError, Configuration, Context};

fn context() -> Context {
    Context {
        organization_name: "contoso".to_string(),
        personal_access_token: "pat42".to_string(),
        project_name: "rocket".to_string(),
        user_email: "me@example.com".to_string(),
    }
}

#[test]
fn headers_are_built_once_from_credentials() {
    let client = AzureDevOpsClient::new(context(), true);
    assert_eq!(client.authorization_header(), "Basic bWVAZXhhbXBsZS5jb206cGF0NDI=");
    assert_eq!(client.accept_header(), "application/json");
    assert!(client.log_responses());
}

#[test]
fn authorization_encodes_utf8_bytes() {
    let mut ctx = context();
    ctx.user_email = "é".to_string();
    ctx.personal_access_token = "x".to_string();
    let client = AzureDevOpsClient::new(ctx, false);
    assert_eq!(client.authorization_header(), "Basic w6k6eA==");
    assert!(!client.log_responses());
}

#[test]
fn single_item_url() {
    let client = AzureDevOpsClient::new(context(), false);
    assert_eq!(
        client.work_item_url(42),
        "https://dev.azure.com/contoso/rocket/_apis/wit/workitems/42?api-version=7.1&$expand=relations"
    );
}

#[test]
fn bulk_url_joins_ids() {
    let client = AzureDevOpsClient::new(context(), false);
    assert_eq!(
        client.work_items_url(&vec![101, 7, 4000000000]),
        Some(
            "https://dev.azure.com/contoso/rocket/_apis/wit/workitems?api-version=7.1&ids=101,7,4000000000&$expand=relations"
                .to_string()
        )
    );
    assert_eq!(
        client.work_items_url(&vec![5]),
        Some(
            "https://dev.azure.com/contoso/rocket/_apis/wit/workitems?api-version=7.1&ids=5&$expand=relations"
                .to_string()
        )
    );
}

#[test]
fn bulk_with_no_ids_makes_no_request() {
    let client = AzureDevOpsClient::new(context(), false);
    assert_eq!(client.work_items_url(&vec![]), None);
}

#[test]
fn success_status_passes_body_on() {
    assert_eq!(check_status(200, "{}".to_string()), Ok("{}".to_string()));
    assert_eq!(check_status(299, "x".to_string()), Ok("x".to_string()));
}

#[test]
fn error_status_carries_code_only() {
    assert_eq!(check_status(401, "{\"id\":1}".to_string()), Err(ClientError::HttpStatus(401)));
    assert_eq!(check_status(404, "not json".to_string()), Err(ClientError::HttpStatus(404)));
    assert_eq!(check_status(199, String::new()), Err(ClientError::HttpStatus(199)));
    assert_eq!(check_status(300, String::new()), Err(ClientError::HttpStatus(300)));
}

#[test]
fn configuration_becomes_context() {
    let c = Configuration {
        access_token: "pat42".to_string(),
        organization: "contoso".to_string(),
        project: "rocket".to_string(),
        user: "me@example.com".to_string(),
    };
    assert_eq!(c.into_context(), context());
}
