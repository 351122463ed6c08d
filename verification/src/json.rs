//! Members of JSON documents, read with `serde_json`.
use vstd::prelude::*;

verus! {

/// What `serde_json` reads as the unsigned integer member `key` of the JSON object in
/// `bytes`.
pub uninterp spec fn json_u64_member(bytes: Seq<u8>, key: Seq<char>) -> Option<u64>;

/// `serde_json::from_slice` into a `serde_json::Value`, then `Value::get(key)` and
/// `Value::as_u64`. Claimed: the result depends on `bytes` and `key` alone. Not stated:
/// which documents give `Some` (valid JSON, an object, the member present, a
/// non-negative integer that fits in 64 bits).
#[verifier::external_body]
pub(crate) fn json_u64_member_of(bytes: &[u8], key: &str) -> (r: Option<u64>)
    ensures
        r == json_u64_member(bytes@, key@),
{
    match serde_json::from_slice::<serde_json::Value>(bytes) {
        Ok(v) => match v.get(key) {
            Some(x) => x.as_u64(),
            None => None,
        },
        Err(_) => None,
    }
}

/// What `serde_json` reads as the unsigned integer member `key` of the JSON object in the
/// text `text`.
pub uninterp spec fn json_text_u64_member(text: Seq<char>, key: Seq<char>) -> Option<u64>;

/// `serde_json::from_str` into a `serde_json::Value`, then `Value::get(key)` and
/// `Value::as_u64`. Claimed: the result depends on `text` and `key` alone. Not stated:
/// which texts give `Some`.
#[verifier::external_body]
pub(crate) fn json_text_u64_member_of(text: &str, key: &str) -> (r: Option<u64>)
    ensures
        r == json_text_u64_member(text@, key@),
{
    match serde_json::from_str::<serde_json::Value>(text) {
        Ok(v) => match v.get(key) {
            Some(x) => x.as_u64(),
            None => None,
        },
        Err(_) => None,
    }
}

/// What `serde_json` reads as the string member `key` of the JSON object in the text
/// `text`.
pub uninterp spec fn json_text_str_member(text: Seq<char>, key: Seq<char>) -> Option<Seq<char>>;

/// `serde_json::from_str` into a `serde_json::Value`, then `Value::get(key)` and
/// `Value::as_str`, copied. Claimed: the result depends on `text` and `key` alone. Not
/// stated: which texts give `Some`.
#[verifier::external_body]
pub(crate) fn json_text_str_member_of(text: &str, key: &str) -> (r: Option<String>)
    ensures
        match r {
            Some(x) => json_text_str_member(text@, key@) == Some(x@),
            None => json_text_str_member(text@, key@) is None,
        },
{
    match serde_json::from_str::<serde_json::Value>(text) {
        Ok(v) => match v.get(key) {
            Some(x) => match x.as_str() {
                Some(t) => Some(t.to_string()),
                None => None,
            },
            None => None,
        },
        Err(_) => None,
    }
}

/// ASCII whitespace as `u8::is_ascii_whitespace` reads it: space, tab, line feed, form
/// feed, carriage return.
pub open spec fn ascii_ws(b: u8) -> bool {
    b == 32 || b == 9 || b == 10 || b == 12 || b == 13
}

/// Index of the first byte at or after `i` that is not ASCII whitespace, or the length.
pub open spec fn first_non_ws(s: Seq<u8>, i: int) -> int
    decreases s.len() - i,
{
    if i < 0 || i >= s.len() {
        s.len() as int
    } else if !ascii_ws(s[i]) {
        i
    } else {
        first_non_ws(s, i + 1)
    }
}

/// One past the last byte before `j` that is not ASCII whitespace, or `lo`.
pub open spec fn last_non_ws(s: Seq<u8>, lo: int, j: int) -> int
    decreases j - lo,
{
    if j <= lo {
        lo
    } else if !ascii_ws(s[j - 1]) {
        j
    } else {
        last_non_ws(s, lo, j - 1)
    }
}

proof fn lemma_first_non_ws(s: Seq<u8>, i: int)
    requires
        0 <= i <= s.len(),
    ensures
        i <= first_non_ws(s, i) <= s.len(),
    decreases s.len() - i,
{
    if i < s.len() && ascii_ws(s[i]) {
        lemma_first_non_ws(s, i + 1);
    }
}

proof fn lemma_last_non_ws(s: Seq<u8>, lo: int, j: int)
    requires
        0 <= lo <= j <= s.len(),
    ensures
        lo <= last_non_ws(s, lo, j) <= j,
    decreases j - lo,
{
    if j > lo && ascii_ws(s[j - 1]) {
        lemma_last_non_ws(s, lo, j - 1);
    }
}

/// `<[u8]>::trim_ascii`: the bytes without leading and trailing ASCII whitespace.
pub open spec fn spec_trim_ascii(s: Seq<u8>) -> Seq<u8> {
    let a = first_non_ws(s, 0);
    s.subrange(a, last_non_ws(s, a, s.len() as int))
}

/// The bounds of `bytes` without leading and trailing ASCII whitespace.
pub fn trim_ascii(bytes: &[u8]) -> (r: (usize, usize))
    ensures
        r.0 <= r.1 <= bytes@.len(),
        bytes@.subrange(r.0 as int, r.1 as int) == spec_trim_ascii(bytes@),
{
    proof {
        lemma_first_non_ws(bytes@, 0);
    }
    let mut a: usize = 0;
    while a < bytes.len() && (bytes[a] == 32 || bytes[a] == 9 || bytes[a] == 10 || bytes[a] == 12
        || bytes[a] == 13)
        invariant
            a <= bytes.len(),
            first_non_ws(bytes@, a as int) == first_non_ws(bytes@, 0),
        decreases bytes.len() - a,
    {
        a += 1;
    }
    proof {
        lemma_last_non_ws(bytes@, a as int, bytes@.len() as int);
    }
    let mut b: usize = bytes.len();
    while b > a && (bytes[b - 1] == 32 || bytes[b - 1] == 9 || bytes[b - 1] == 10 || bytes[b - 1]
        == 12 || bytes[b - 1] == 13)
        invariant
            a <= b <= bytes.len(),
            a as int == first_non_ws(bytes@, 0),
            last_non_ws(bytes@, a as int, b as int) == last_non_ws(
                bytes@,
                a as int,
                bytes@.len() as int,
            ),
        decreases b,
    {
        b -= 1;
    }
    (a, b)
}

/// Whether a state file can hold JSON at all: after trimming, it starts an object or an
/// array.
pub fn json_bytes_look_valid(bytes: &[u8]) -> (r: bool)
    ensures
        r == (spec_trim_ascii(bytes@).len() > 0 && (spec_trim_ascii(bytes@)[0] == 123u8
            || spec_trim_ascii(bytes@)[0] == 91u8)),
{
    let (a, b) = trim_ascii(bytes);
    a < b && (bytes[a] == 123 || bytes[a] == 91)
}

} // verus!
