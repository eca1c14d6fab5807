//! The stages of the Jira pipeline: fetching, cleaning and storing tickets.

pub mod disk_consumer;
pub mod jira;
pub mod jira_cleaned;
pub mod jira_producer;
pub mod s3_consumer;
pub mod text_proc;
