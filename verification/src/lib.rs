//! Extract, de-normalize and upload Jira tickets: the decision logic of the
//! pipeline (batching, markup scanning, ticket simplification, naming of the
//! produced documents and configuration), with its contracts.

pub mod asyncs;
pub mod common;
pub mod factory;
pub mod markup;
pub mod pipeline;
pub mod plugins;
