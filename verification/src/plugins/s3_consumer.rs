//! Storing documents as objects of an S3 bucket.

use vstd::prelude::*;

verus! {

/// Where documents go: a bucket, and the prefix and suffix of object keys.
pub struct S3Upload {
    name: String,
    prefix: String,
    suffix: String,
}

impl View for S3Upload {
    /// The bucket, the key prefix and the key suffix.
    type V = (Seq<char>, Seq<char>, Seq<char>);

    closed spec fn view(&self) -> (Seq<char>, Seq<char>, Seq<char>) {
        (self.name@, self.prefix@, self.suffix@)
    }
}

impl S3Upload {
    pub fn new(name: &str, prefix: &str, suffix: &str) -> (upload: Self)
        ensures
            upload@ == (name@, prefix@, suffix@),
    {
        S3Upload { name: name.to_owned(), prefix: prefix.to_owned(), suffix: suffix.to_owned() }
    }

    /// The bucket.
    pub fn bucket(&self) -> (name: &str)
        ensures
            name@ == self@.0,
    {
        self.name.as_str()
    }

    /// The key of the object that holds the document with key `itm_key`:
    /// prefix, item key, suffix.
    pub fn object_key(&self, itm_key: &str) -> (key: String)
        ensures
            key@ == self@.1 + itm_key@ + self@.2,
    {
        let mut key = self.prefix.clone();
        key.append(itm_key);
        key.append(self.suffix.as_str());
        key
    }
}

} // verus!
