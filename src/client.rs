//! The API client's own state and logic: the headers built once from the
//! credentials, the request URLs of the two endpoints, and the status check
//! that every response goes through.
use base64::Engine;
use vstd::prelude::*;
use vstd::string::*;

use crate::error::ClientError;
use crate::models::Context;
use crate::text::{decimal, push_decimal};

verus! {

/// The padded base64 encoding, in the standard alphabet, of the UTF-8 bytes
/// of a text.
pub uninterp spec fn base64_standard(s: Seq<char>) -> Seq<char>;

/// Relies on `base64::engine::general_purpose::STANDARD.encode`: the padded
/// standard-alphabet encoding of the text's UTF-8 bytes, four characters for
/// each started group of three bytes. It panics only where that length
/// overflows `usize`, which the bound on `s` rules out.
#[verifier::external_body]
fn encode_base64(s: &str) -> (r: String)
    requires
        s@.len() <= usize::MAX / 8,
    ensures
        r@ == base64_standard(s@),
        r@.len() == 4 * ((s.spec_bytes().len() + 2) / 3),
{
    base64::engine::general_purpose::STANDARD.encode(s)
}

/// The value of the `Authorization` header for the given credentials.
pub open spec fn authorization_value(context: Context) -> Seq<char> {
    "Basic "@ + base64_standard(
        context.user_email@ + ":"@ + context.personal_access_token@,
    )
}

/// The host that every request goes to, with the organization and project.
pub open spec fn project_prefix(context: Context) -> Seq<char> {
    "https://dev.azure.com/"@ + context.organization_name@ + "/"@ + context.project_name@
}

/// The URL of the single-item endpoint.
pub open spec fn work_item_url_spec(context: Context, id: u32) -> Seq<char> {
    project_prefix(context) + "/_apis/wit/workitems/"@ + decimal(id as nat)
        + "?api-version=7.1&$expand=relations"@
}

/// The identifiers in decimal, joined by commas.
pub open spec fn joined_ids(ids: Seq<u32>) -> Seq<char>
    decreases ids.len(),
{
    if ids.len() == 0 {
        Seq::empty()
    } else if ids.len() == 1 {
        decimal(ids[0] as nat)
    } else {
        joined_ids(ids.drop_last()) + ","@ + decimal(ids.last() as nat)
    }
}

/// The URL of the bulk endpoint.
pub open spec fn work_items_url_spec(context: Context, ids: Seq<u32>) -> Seq<char> {
    project_prefix(context) + "/_apis/wit/workitems?api-version=7.1&ids="@ + joined_ids(ids)
        + "&$expand=relations"@
}

/// Whether a status code reports success.
pub open spec fn is_success(status: u16) -> bool {
    200 <= status <= 299
}

/// Client of the work-item API. Its headers are built once, at
/// construction, and never change.
pub struct AzureDevOpsClient {
    context: Context,
    authorization: String,
    accept: String,
    log_responses: bool,
}

impl AzureDevOpsClient {
    pub closed spec fn spec_context(&self) -> Context {
        self.context
    }

    pub closed spec fn spec_authorization(&self) -> Seq<char> {
        self.authorization@
    }

    pub closed spec fn spec_accept(&self) -> Seq<char> {
        self.accept@
    }

    pub closed spec fn spec_log_responses(&self) -> bool {
        self.log_responses
    }

    /// Builds a client for `context`. `log_responses` asks for every raw
    /// response body to be logged.
    pub fn new(context: Context, log_responses: bool) -> (r: Self)
        requires
            context.user_email@.len() + context.personal_access_token@.len() < usize::MAX / 8,
        ensures
            r.spec_context() == context,
            r.spec_authorization() == authorization_value(context),
            r.spec_accept() == "application/json"@,
            r.spec_log_responses() == log_responses,
    {
        let mut credentials = String::from_str(context.user_email.as_str());
        credentials.append(":");
        credentials.append(context.personal_access_token.as_str());
        proof {
            reveal_strlit(":");
        }
        let encoded = encode_base64(credentials.as_str());
        let mut authorization = String::from_str("Basic ");
        authorization.append(encoded.as_str());
        let accept = String::from_str("application/json");
        AzureDevOpsClient { context, authorization, accept, log_responses }
    }

    /// The value of the `Authorization` header sent with every request.
    pub fn authorization_header(&self) -> (r: &str)
        ensures
            r@ == self.spec_authorization(),
    {
        self.authorization.as_str()
    }

    /// The value of the `Accept` header sent with every request.
    pub fn accept_header(&self) -> (r: &str)
        ensures
            r@ == self.spec_accept(),
    {
        self.accept.as_str()
    }

    /// Whether every raw response body is logged.
    pub fn log_responses(&self) -> (r: bool)
        ensures
            r == self.spec_log_responses(),
    {
        self.log_responses
    }

    /// Appends the scheme, host, organization and project to `out`.
    fn push_project_prefix(&self, out: &mut String)
        ensures
            final(out)@ == old(out)@ + project_prefix(self.spec_context()),
    {
        out.append("https://dev.azure.com/");
        out.append(self.context.organization_name.as_str());
        out.append("/");
        out.append(self.context.project_name.as_str());
    }

    /// The URL of the single-item endpoint for `id`.
    pub fn work_item_url(&self, id: u32) -> (r: String)
        ensures
            r@ == work_item_url_spec(self.spec_context(), id),
    {
        let mut url = String::new();
        self.push_project_prefix(&mut url);
        url.append("/_apis/wit/workitems/");
        push_decimal(&mut url, id);
        url.append("?api-version=7.1&$expand=relations");
        url
    }

    /// The URL of the bulk endpoint for `ids`; none for an empty list, for
    /// which no request is to be made.
    pub fn work_items_url(&self, ids: &Vec<u32>) -> (r: Option<String>)
        ensures
            ids@.len() == 0 <==> r is None,
            r matches Some(u) ==> u@ == work_items_url_spec(self.spec_context(), ids@),
    {
        if ids.len() == 0 {
            return None;
        }
        let mut url = String::new();
        self.push_project_prefix(&mut url);
        url.append("/_apis/wit/workitems?api-version=7.1&ids=");
        let ghost start = url@;
        let mut i: usize = 0;
        while i < ids.len()
            invariant
                i <= ids@.len(),
                url@ == start + joined_ids(ids@.subrange(0, i as int)),
            decreases ids@.len() - i,
        {
            let ghost before = url@;
            if i > 0 {
                url.append(",");
            }
            push_decimal(&mut url, ids[i]);
            proof {
                let pre = ids@.subrange(0, i as int + 1);
                assert(pre.drop_last() =~= ids@.subrange(0, i as int));
                if i == 0 {
                    assert(ids@.subrange(0, 0) =~= Seq::<u32>::empty());
                    assert(url@ =~= start + joined_ids(pre));
                } else {
                    assert(url@ =~= start + joined_ids(pre));
                }
            }
            i = i + 1;
        }
        assert(ids@.subrange(0, i as int) =~= ids@);
        url.append("&$expand=relations");
        Some(url)
    }
}

/// Passes the body of a successful response on for decoding; any other
/// status is an error that carries the code, and the body is dropped.
pub fn check_status(status: u16, body: String) -> (r: Result<String, ClientError>)
    ensures
        is_success(status) ==> r == Ok::<String, ClientError>(body),
        !is_success(status) ==> r == Err::<String, ClientError>(ClientError::HttpStatus(status)),
{
    if 200 <= status && status <= 299 {
        Ok(body)
    } else {
        Err(ClientError::HttpStatus(status))
    }
}

} // verus!
