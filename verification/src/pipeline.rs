//! Items that flow through the pipeline, and the decisions of its stages.

pub mod consumer;
pub mod producer;

use vstd::prelude::*;

verus! {

/// The key that identifies an item (a ticket key).
pub type Key = String;

/// An item passed between pipeline stages: a key and a payload.
pub trait Item {
    type Inner;

    fn key(&self) -> Key;

    fn into_inner(self) -> Self::Inner;
}

/// A de-normalized (plain text) document: its key and its text.
pub struct DenormalizedItm(pub Key, pub String);

impl Item for DenormalizedItm {
    type Inner = String;

    fn key(&self) -> (key: String)
        ensures
            key@ == self.0@,
    {
        self.0.clone()
    }

    fn into_inner(self) -> (text: String)
        ensures
            text == self.1,
    {
        self.1
    }
}

/// A message with a key and a payload of type `T`.
pub trait Msg<T> {
    fn key(&self) -> String;

    fn payload(self) -> T;
}

} // verus!
