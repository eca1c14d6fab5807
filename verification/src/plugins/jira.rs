//! Jira tickets as the search API returns them.

use crate::pipeline::Item;
use vstd::prelude::*;

verus! {

/// A ticket: its key and the fields that the pipeline reads.
#[derive(Debug)]
pub struct JiraTicket {
    pub key: String,
    pub fields: TicketFields,
}

impl Item for JiraTicket {
    type Inner = TicketFields;

    fn key(&self) -> (key: String)
        ensures
            key@ == self.key@,
    {
        self.key.clone()
    }

    fn into_inner(self) -> (fields: TicketFields)
        ensures
            fields == self.fields,
    {
        self.fields
    }
}

/// The names of the ticket fields that a search asks for, in order.
pub open spec fn spec_extra_fields() -> Seq<Seq<char>> {
    seq!["summary"@, "description"@, "assignee"@, "reporter"@, "created"@, "comment"@]
}

/// The ticket fields that a search asks for: summary, description, assignee,
/// reporter, created, comment.
pub fn extra_fields() -> (names: Vec<String>)
    ensures
        names@.len() == 6,
        forall|i: int| 0 <= i < 6 ==> #[trigger] names@[i]@ == spec_extra_fields()[i],
{
    let mut names: Vec<String> = Vec::new();
    names.push("summary".to_owned());
    names.push("description".to_owned());
    names.push("assignee".to_owned());
    names.push("reporter".to_owned());
    names.push("created".to_owned());
    names.push("comment".to_owned());
    names
}

/// The fields of a ticket.
#[derive(Debug)]
pub struct TicketFields {
    pub summary: String,
    pub description: String,
    pub assignee: User,
    pub reporter: User,
    pub created: String,
    pub comment: CommentSet,
}

/// A Jira user.
#[derive(Debug)]
pub struct User {
    pub name: String,
}

/// The comments of a ticket.
#[derive(Debug)]
pub struct CommentSet {
    pub comments: Vec<CommentData>,
}

/// One comment.
#[derive(Debug)]
pub struct CommentData {
    pub body: String,
    pub author: User,
    pub created: String,
}

} // verus!
