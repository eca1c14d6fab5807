//! The requests that fetch tickets from the Jira search API.

use crate::plugins::jira::{extra_fields, spec_extra_fields};
use vstd::prelude::*;

verus! {

/// The path of the REST API under the Jira base URL.
pub const API_SEGM: &'static str = "/rest/api/2";

/// The media type of requests and replies.
pub const JSON_HTTP: &'static str = "application/json";

/// The body of a search: the JQL query, where to start, how many tickets to
/// return, and which fields (absent: the fields are not listed).
pub struct SearchRequest {
    pub jql: String,
    pub start_at: Option<u32>,
    pub max_results: u32,
    pub fields: Option<Vec<String>>,
}

/// A Jira instance and the query whose tickets are fetched.
pub struct JiraInput {
    base_url: String,
    token: String,
    query: String,
}

impl View for JiraInput {
    /// The base URL, the access token and the JQL query.
    type V = (Seq<char>, Seq<char>, Seq<char>);

    closed spec fn view(&self) -> (Seq<char>, Seq<char>, Seq<char>) {
        (self.base_url@, self.token@, self.query@)
    }
}

impl JiraInput {
    pub fn new(base_url: String, token: String, query: String) -> (input: Self)
        ensures
            input@ == (base_url@, token@, query@),
    {
        Self { base_url, token, query }
    }

    /// The URL of API endpoint `path`: base URL, API path, then `path`.
    pub fn api_url(&self, path: &str) -> (url: String)
        ensures
            url@ == self@.0 + API_SEGM@ + path@,
    {
        let mut url = self.base_url.clone();
        url.append(API_SEGM);
        url.append(path);
        url
    }

    /// The value of the `Authorization` header: a bearer token.
    pub fn auth_header(&self) -> (value: String)
        ensures
            value@ == "Bearer "@ + self@.1,
    {
        let mut value = "Bearer ".to_owned();
        value.append(self.token.as_str());
        value
    }

    /// The search that only counts the query's tickets: no ticket is returned.
    pub fn count_request(&self) -> (req: SearchRequest)
        ensures
            req.jql@ == self@.2,
            req.start_at is None,
            req.max_results == 0,
            req.fields is None,
    {
        SearchRequest { jql: self.query.clone(), start_at: None, max_results: 0, fields: None }
    }

    /// The search for at most `max` tickets from the `start`-th on, with the
    /// fields the pipeline reads.
    pub fn page_request(&self, start: u32, max: u32) -> (req: SearchRequest)
        ensures
            req.jql@ == self@.2,
            req.start_at == Some(start),
            req.max_results == max,
            req.fields matches Some(f) && f@.len() == 6 && forall|i: int|
                0 <= i < 6 ==> #[trigger] f@[i]@ == spec_extra_fields()[i],
    {
        SearchRequest {
            jql: self.query.clone(),
            start_at: Some(start),
            max_results: max,
            fields: Some(extra_fields()),
        }
    }
}

} // verus!
