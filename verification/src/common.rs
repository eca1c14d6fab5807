//! Configuration: the known settings with their defaults, and the host's CPUs.

use vstd::prelude::*;
use vstd::string::StringSliceAdditionalSpecFns;

verus! {

/// The default of each known setting; `None` for an unknown name.
pub open spec fn spec_env_default(key: Seq<char>) -> Option<Seq<char>> {
    if key == "JIRA_ENDPOINT"@ {
        Some(""@)
    } else if key == "JIRA_JQL"@ {
        Some(""@)
    } else if key == "JIRA_TOKEN"@ {
        Some(""@)
    } else if key == "SKIP_PANDOC"@ {
        Some("false"@)
    } else if key == "DEBUG_DIR"@ {
        Some(""@)
    } else if key == "DEST_BUCKET"@ {
        Some("jira-cleaned-for-inference"@)
    } else if key == "DEST_PREFIX"@ {
        Some(""@)
    } else if key == "PRODUCER_WAIT"@ {
        Some("1000"@)
    } else if key == "PRODUCER_BATCH_SIZE"@ {
        Some("15"@)
    } else {
        None
    }
}

/// The defaults of the settings: the Jira endpoint, query and token, the
/// debug directory and the key prefix are empty (so by default documents go
/// to S3 and nothing is fetched until the Jira settings are given); markup
/// conversion is not skipped (`false`); the bucket is
/// `jira-cleaned-for-inference`; the producer waits `1000` ms between
/// batches of `15`. No other name is a setting.
pub proof fn law_setting_defaults(key: Seq<char>)
    ensures
        spec_env_default("JIRA_ENDPOINT"@) == Some(Seq::<char>::empty()),
        spec_env_default("JIRA_JQL"@) == Some(Seq::<char>::empty()),
        spec_env_default("JIRA_TOKEN"@) == Some(Seq::<char>::empty()),
        spec_env_default("DEBUG_DIR"@) == Some(Seq::<char>::empty()),
        spec_env_default("DEST_PREFIX"@) == Some(Seq::<char>::empty()),
        spec_env_default("SKIP_PANDOC"@) == Some(seq!['f', 'a', 'l', 's', 'e']),
        spec_env_default("DEST_BUCKET"@) == Some("jira-cleaned-for-inference"@),
        spec_env_default("PRODUCER_WAIT"@) == Some(seq!['1', '0', '0', '0']),
        spec_env_default("PRODUCER_BATCH_SIZE"@) == Some(seq!['1', '5']),
        key != "JIRA_ENDPOINT"@ && key != "JIRA_JQL"@ && key != "JIRA_TOKEN"@ && key
            != "SKIP_PANDOC"@ && key != "DEBUG_DIR"@ && key != "DEST_BUCKET"@ && key
            != "DEST_PREFIX"@ && key != "PRODUCER_WAIT"@ && key != "PRODUCER_BATCH_SIZE"@
            ==> spec_env_default(key) is None,
{
    reveal_strlit("JIRA_ENDPOINT");
    reveal_strlit("JIRA_JQL");
    reveal_strlit("JIRA_TOKEN");
    reveal_strlit("SKIP_PANDOC");
    reveal_strlit("DEBUG_DIR");
    reveal_strlit("DEST_BUCKET");
    reveal_strlit("DEST_PREFIX");
    reveal_strlit("PRODUCER_WAIT");
    reveal_strlit("PRODUCER_BATCH_SIZE");
    reveal_strlit("");
    reveal_strlit("false");
    reveal_strlit("1000");
    reveal_strlit("15");
    assert("JIRA_JQL"@ != "JIRA_ENDPOINT"@) by {
        assert("JIRA_JQL"@.len() != "JIRA_ENDPOINT"@.len());
    }
    assert("JIRA_TOKEN"@ != "JIRA_ENDPOINT"@) by {
        assert("JIRA_TOKEN"@[5] != "JIRA_ENDPOINT"@[5]);
    }
    assert("JIRA_TOKEN"@ != "JIRA_JQL"@) by {
        assert("JIRA_TOKEN"@.len() != "JIRA_JQL"@.len());
    }
    assert(""@ =~= Seq::<char>::empty());
    assert("false"@ =~= seq!['f', 'a', 'l', 's', 'e']);
    assert("1000"@ =~= seq!['1', '0', '0', '0']);
    assert("15"@ =~= seq!['1', '5']);
    let keys = seq![
        "JIRA_ENDPOINT"@,
        "JIRA_JQL"@,
        "JIRA_TOKEN"@,
        "SKIP_PANDOC"@,
        "DEBUG_DIR"@,
        "DEST_BUCKET"@,
        "DEST_PREFIX"@,
        "PRODUCER_WAIT"@,
        "PRODUCER_BATCH_SIZE"@
    ];
    assert forall|i: int, j: int| 0 <= i < j < 9 implies keys[i] != keys[j] by {
        if keys[i].len() == keys[j].len() {
            assert(keys[i][0] != keys[j][0] || keys[i][5] != keys[j][5] || keys[i][6]
                != keys[j][6]);
        }
    }
}

/// Whether two strings hold the same characters.
pub fn str_equals(a: &str, b: &str) -> (same: bool)
    ensures
        same == (a@ == b@),
{
    broadcast use vstd::utf8::encode_utf8_decode_utf8;
    let ab = a.as_bytes();
    let bb = b.as_bytes();
    if ab.len() != bb.len() {
        return false;
    }
    let mut i: usize = 0;
    while i < ab.len()
        invariant
            ab@ == a.spec_bytes(),
            bb@ == b.spec_bytes(),
            ab@.len() == bb@.len(),
            i <= ab@.len(),
            forall|j: int| 0 <= j < i ==> ab@[j] == bb@[j],
        decreases ab@.len() - i,
    {
        if ab[i] != bb[i] {
            return false;
        }
        i = i + 1;
    }
    assert(ab@ =~= bb@);
    assert(vstd::utf8::decode_utf8(a.spec_bytes()) == a@);
    assert(vstd::utf8::decode_utf8(b.spec_bytes()) == b@);
    true
}

/// The default of setting `key`, or `None` when `key` is not a known setting.
pub fn env_default(key: &str) -> (default: Option<&'static str>)
    ensures
        match default {
            Some(d) => spec_env_default(key@) == Some(d@),
            None => spec_env_default(key@) is None,
        },
{
    if str_equals(key, "JIRA_ENDPOINT") {
        Some("")
    } else if str_equals(key, "JIRA_JQL") {
        Some("")
    } else if str_equals(key, "JIRA_TOKEN") {
        Some("")
    } else if str_equals(key, "SKIP_PANDOC") {
        Some("false")
    } else if str_equals(key, "DEBUG_DIR") {
        Some("")
    } else if str_equals(key, "DEST_BUCKET") {
        Some("jira-cleaned-for-inference")
    } else if str_equals(key, "DEST_PREFIX") {
        Some("")
    } else if str_equals(key, "PRODUCER_WAIT") {
        Some("1000")
    } else if str_equals(key, "PRODUCER_BATCH_SIZE") {
        Some("15")
    } else {
        None
    }
}

/// The value of setting `key`: the value found in the environment when there
/// is one, else the setting's default. `key` must be a known setting.
pub fn get_conf(key: &str, from_env: Option<String>) -> (value: String)
    requires
        spec_env_default(key@) is Some,
    ensures
        value@ == match from_env {
            Some(v) => v@,
            None => spec_env_default(key@)->0,
        },
{
    match from_env {
        Some(v) => v,
        None => {
            let d = env_default(key).unwrap();
            d.to_owned()
        },
    }
}

/// The value of the decimal digits `digits` (ASCII bytes `0` to `9`).
pub open spec fn decimal_value(digits: Seq<u8>) -> int
    decreases digits.len(),
{
    if digits.len() == 0 {
        0
    } else {
        decimal_value(digits.drop_last()) * 10 + (digits.last() - 48)
    }
}

/// Every byte of `d` is an ASCII digit.
pub open spec fn all_ascii_digits(d: Seq<u8>) -> bool {
    forall|i: int| 0 <= i < d.len() ==> 48 <= #[trigger] d[i] <= 57
}

/// What `str::parse::<usize>` gives for the bytes `s`: an optional `+`, then
/// one or more decimal digits whose value fits in a `usize`; else nothing.
pub open spec fn spec_parse_usize(s: Seq<u8>) -> Option<usize> {
    let digits = if s.len() > 0 && s[0] == 43u8 {
        s.drop_first()
    } else {
        s
    };
    if digits.len() > 0 && all_ascii_digits(digits) && decimal_value(digits) <= usize::MAX {
        Some(decimal_value(digits) as usize)
    } else {
        None
    }
}

proof fn lemma_decimal_prefix(d: Seq<u8>, k: int)
    requires
        all_ascii_digits(d),
        0 <= k <= d.len(),
    ensures
        0 <= decimal_value(d.take(k)) <= decimal_value(d),
    decreases d.len(),
{
    if d.len() > 0 {
        if k == d.len() {
            assert(d.take(k) =~= d);
        }
        assert(all_ascii_digits(d.drop_last()));
        if k < d.len() {
            lemma_decimal_prefix(d.drop_last(), k);
            assert(d.drop_last().take(k) =~= d.take(k));
        } else {
            lemma_decimal_prefix(d.drop_last(), k - 1);
            assert(d.drop_last().take(k - 1) =~= d.drop_last());
        }
    }
}

proof fn lemma_decimal_step(digits: Seq<u8>, k: int)
    requires
        0 <= k < digits.len(),
        all_ascii_digits(digits.take(k)),
        48 <= digits[k] <= 57,
    ensures
        all_ascii_digits(digits.take(k + 1)),
        decimal_value(digits.take(k + 1)) == decimal_value(digits.take(k)) * 10 + digits[k] - 48,
{
    let next = digits.take(k + 1);
    assert(next.drop_last() =~= digits.take(k));
    assert forall|j: int| 0 <= j < next.len() implies 48 <= #[trigger] next[j] <= 57 by {
        if j < k {
            assert(next[j] == digits.take(k)[j]);
        }
    }
}

/// Parses a decimal `usize` as `str::parse::<usize>` does.
pub fn parse_usize(s: &str) -> (n: Option<usize>)
    ensures
        n == spec_parse_usize(s.spec_bytes()),
{
    let b = s.as_bytes();
    let len = b.len();
    if len == 0 {
        return None;
    }
    let start: usize = if b[0] == 43u8 {
        1
    } else {
        0
    };
    let ghost digits = if b@[0] == 43u8 {
        b@.drop_first()
    } else {
        b@
    };
    assert(digits =~= b@.subrange(start as int, len as int));
    if start == len {
        return None;
    }
    let mut v: usize = 0;
    let mut i: usize = start;
    while i < len
        invariant
            b@ == s.spec_bytes(),
            len == b@.len(),
            start <= i <= len,
            digits == b@.subrange(start as int, len as int),
            len > 0,
            digits == (if b@[0] == 43u8 {
                b@.drop_first()
            } else {
                b@
            }),
            digits.len() > 0,
            all_ascii_digits(digits.take(i - start)),
            v == decimal_value(digits.take(i - start)),
        decreases len - i,
    {
        let c = b[i];
        if c < 48u8 || c > 57u8 {
            assert(!all_ascii_digits(digits)) by {
                assert(digits[i - start] == c);
            }
            return None;
        }
        proof {
            lemma_decimal_step(digits, i - start);
        }
        let d = (c - 48u8) as usize;
        let v10 = v.checked_mul(10);
        let nv = match v10 {
            Some(x) => x.checked_add(d),
            None => None,
        };
        match nv {
            Some(x) => {
                v = x;
            },
            None => {
                proof {
                    if all_ascii_digits(digits) {
                        lemma_decimal_prefix(digits, i - start + 1);
                    }
                }
                return None;
            },
        }
        i = i + 1;
    }
    assert(digits.take(len - start) =~= digits);
    Some(v)
}

/// The number of online CPUs from the system's answer: the reported count
/// (converted to `usize`) when there is one, else 1.
pub fn num_cpus_from(reading: Option<i64>) -> (cpus: usize)
    ensures
        cpus == match reading {
            Some(n) => n as usize,
            None => 1usize,
        },
{
    match reading {
        Some(n) => n as usize,
        None => 1,
    }
}

/// The cores to pin the process to: cores 1 and 2 when there are at least
/// four CPUs, else core 0.
pub fn target_cores(num_cpus: usize) -> (cores: Vec<usize>)
    ensures
        cores@ == if num_cpus >= 4 {
            seq![1usize, 2usize]
        } else {
            seq![0usize]
        },
{
    if num_cpus >= 4 {
        vec![1, 2]
    } else {
        vec![0]
    }
}

} // verus!
