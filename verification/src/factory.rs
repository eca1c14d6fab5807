//! The decisions made while wiring the pipeline from its configuration.

use crate::common::str_equals;
use vstd::prelude::*;

verus! {

/// The capacity of each channel between stages: twice the batch size.
pub fn channel_capacity(batch_size: usize) -> (capacity: usize)
    requires
        batch_size * 2 <= usize::MAX,
    ensures
        capacity == batch_size * 2,
{
    batch_size * 2
}

/// Whether the Jira endpoint, query and token are all set (non-empty); the
/// pipeline cannot fetch anything otherwise.
pub fn jira_envs_present(base_url: &str, jql: &str, token: &str) -> (present: bool)
    ensures
        present == (base_url@.len() > 0 && jql@.len() > 0 && token@.len() > 0),
{
    !(base_url.is_empty() || jql.is_empty() || token.is_empty())
}

/// What `str::to_lowercase` gives for `s`: the lowercase mapping of each
/// character, from the Unicode tables of the standard library.
pub uninterp spec fn lowercase(s: Seq<char>) -> Seq<char>;

/// `str::to_lowercase`.
#[verifier::external_body]
fn to_lowercase(s: &str) -> (lowered: String)
    ensures
        lowered@ == lowercase(s@),
{
    s.to_lowercase()
}

/// What `parse::<bool>().unwrap_or_default()` gives for an already
/// lowercased setting: true for exactly `true`, false otherwise.
pub fn flag_is_true(lowered: &str) -> (flag: bool)
    ensures
        flag == (lowered@ == "true"@),
{
    str_equals(lowered, "true")
}

/// Whether the `SKIP_PANDOC` setting `raw` asks to skip markup conversion:
/// its lowercase form is `true`.
pub fn skip_pandoc_flag(raw: &str) -> (skip: bool)
    ensures
        skip == (lowercase(raw@) == "true"@),
{
    let lowered = to_lowercase(raw);
    flag_is_true(lowered.as_str())
}

/// Where documents are stored.
pub enum ConsumerChoice {
    /// Files in a local directory (for debugging).
    Disk { dir: String },
    /// Objects in an S3 bucket, under a key prefix.
    S3 { bucket: String, prefix: String },
}

/// Files in `debug_dir` when that setting is non-empty, else S3 objects in
/// `bucket` under `prefix`.
pub fn choose_consumer(debug_dir: String, bucket: String, prefix: String) -> (choice: ConsumerChoice)
    ensures
        debug_dir@.len() > 0 ==> choice == (ConsumerChoice::Disk { dir: debug_dir }),
        debug_dir@.len() == 0 ==> choice == (ConsumerChoice::S3 { bucket, prefix }),
{
    if !debug_dir.as_str().is_empty() {
        ConsumerChoice::Disk { dir: debug_dir }
    } else {
        ConsumerChoice::S3 { bucket, prefix }
    }
}

} // verus!
