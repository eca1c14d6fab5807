//! Turning a ticket into the simpler record that its plain text is made of.

use crate::pipeline::DenormalizedItm;
use crate::plugins::jira::{CommentData, TicketFields};
use vstd::prelude::*;

verus! {

/// A comment of a simplified ticket.
#[derive(Debug)]
pub struct SimplerComment {
    pub body: String,
    pub author_id: String,
    pub created: String,
}

/// A ticket reduced to what its plain-text rendering shows.
#[derive(Debug)]
pub struct SimplerJiraTicket {
    pub key: String,
    pub summary: String,
    pub assignee_id: String,
    pub reporter_id: String,
    pub created: String,
    pub description: String,
    pub comments: Vec<SimplerComment>,
}

/// The transformer from Jira tickets to plain text; `skip_pandoc` keeps the
/// Jira markup as it is instead of converting it.
#[derive(Clone, Copy)]
pub struct JiraIntoPlain {
    skip_pandoc: bool,
}

impl View for JiraIntoPlain {
    type V = bool;

    /// Whether markup conversion is skipped.
    closed spec fn view(&self) -> bool {
        self.skip_pandoc
    }
}

/// The text kept for a markup text: the original when conversion is skipped
/// or failed, else the converted text.
pub open spec fn spec_cleaned_text(skip: bool, original: Seq<char>, converted: Option<Seq<char>>) -> Seq<char> {
    if skip {
        original
    } else {
        match converted {
            Some(t) => t,
            None => original,
        }
    }
}

/// The text kept for a markup text: when conversion is skipped it is the
/// original text whatever the converter gave; otherwise it is the converted
/// text when the conversion succeeded and the original text when it failed.
/// It is always one of the two.
pub proof fn law_cleaned_text(skip: bool, original: Seq<char>, converted: Option<Seq<char>>)
    ensures
        skip ==> spec_cleaned_text(skip, original, converted) == original,
        !skip && converted is None ==> spec_cleaned_text(skip, original, converted) == original,
        !skip && converted is Some ==> spec_cleaned_text(skip, original, converted)
            == converted->0,
        spec_cleaned_text(skip, original, converted) == original || converted == Some(
            spec_cleaned_text(skip, original, converted),
        ),
{
}

impl JiraIntoPlain {
    pub fn new(skip_pandoc: bool) -> (t: Self)
        ensures
            t@ == skip_pandoc,
    {
        Self { skip_pandoc }
    }

    /// Whether markup conversion is skipped (then nothing is converted).
    pub fn skips_pandoc(&self) -> (skip: bool)
        ensures
            skip == self@,
    {
        self.skip_pandoc
    }

    /// The text kept for `original`, given the result of converting it
    /// (`None` when the conversion failed or was not made).
    pub fn cleaned_text(&self, original: String, converted: Option<String>) -> (text: String)
        ensures
            text@ == spec_cleaned_text(
                self@,
                original@,
                match converted {
                    Some(t) => Some(t@),
                    None => None,
                },
            ),
    {
        if self.skip_pandoc {
            original
        } else {
            match converted {
                Some(t) => t,
                None => original,
            }
        }
    }

    /// The simplified comment: its cleaned body, its author's name and its
    /// creation time.
    pub fn simplify_comment(&self, comment: CommentData, converted: Option<String>) -> (c: SimplerComment)
        ensures
            c.body@ == spec_cleaned_text(
                self@,
                comment.body@,
                match converted {
                    Some(t) => Some(t@),
                    None => None,
                },
            ),
            c.author_id == comment.author.name,
            c.created == comment.created,
    {
        let body = self.cleaned_text(comment.body, converted);
        SimplerComment { body, author_id: comment.author.name, created: comment.created }
    }

    /// The simplified ticket `key` from its fields, the result of converting
    /// its description, and its simplified comments.
    pub fn simplify_ticket(
        &self,
        fields: TicketFields,
        key: String,
        converted_description: Option<String>,
        comments: Vec<SimplerComment>,
    ) -> (t: SimplerJiraTicket)
        ensures
            t.key == key,
            t.summary == fields.summary,
            t.assignee_id == fields.assignee.name,
            t.reporter_id == fields.reporter.name,
            t.created == fields.created,
            t.description@ == spec_cleaned_text(
                self@,
                fields.description@,
                match converted_description {
                    Some(d) => Some(d@),
                    None => None,
                },
            ),
            t.comments == comments,
    {
        let description = self.cleaned_text(fields.description, converted_description);
        SimplerJiraTicket {
            key,
            summary: fields.summary,
            assignee_id: fields.assignee.name,
            reporter_id: fields.reporter.name,
            created: fields.created,
            description,
            comments,
        }
    }
}

/// One step of the transformer: the rendered ticket `key` is passed on as a
/// plain-text document; a rendering error stops the transformer with that
/// error.
pub fn transform_step<E>(key: String, rendered: Result<String, E>) -> (step: Result<
    DenormalizedItm,
    E,
>)
    ensures
        match rendered {
            Ok(text) => step matches Ok(d) && d.0 == key && d.1 == text,
            Err(e) => step matches Err(e2) && e2 == e,
        },
{
    match rendered {
        Ok(text) => Ok(DenormalizedItm(key, text)),
        Err(e) => Err(e),
    }
}

/// Whether the transformer goes on after passing a document on: only while
/// the next stage still receives.
pub fn continue_after_send(sent: bool) -> (more: bool)
    ensures
        more == sent,
{
    sent
}

} // verus!
