//! Calls into serde_json for the snapshot's map, and decimal text of numbers.
use std::collections::BTreeMap;
use vstd::prelude::*;
use vstd::string::StringExecFns;
use crate::kv::{keys_unique, pairs_map};

verus! {

#[verifier::external_type_specification]
#[verifier::external_body]
pub struct ExJsonError(serde_json::Error);

/// The JSON text serde_json writes for a string-to-string map.
pub uninterp spec fn kvs_json(m: Map<Seq<char>, Seq<char>>) -> Seq<u8>;

/// The string-to-string map serde_json reads from these bytes, if any.
pub uninterp spec fn kvs_from_json(b: Seq<u8>) -> Option<Map<Seq<char>, Seq<char>>>;

/// Relies on serde_json::to_vec: a `BTreeMap` is written as one JSON object,
/// its keys in ascending order, so the bytes depend on the map alone; it
/// fails only on a failing `Serialize` impl or a key that is not a string,
/// neither of which a map of strings has; and string escaping is undone by
/// `from_slice`, which reads the object back as the same map.
#[verifier::external_body]
pub(crate) fn encode_kvs(pairs: &Vec<(String, String)>) -> (r: Result<Vec<u8>, serde_json::Error>)
    requires
        keys_unique(pairs@),
    ensures
        r is Ok,
        r->Ok_0@ == kvs_json(pairs_map(pairs@)),
        kvs_from_json(r->Ok_0@) == Some(pairs_map(pairs@)),
{
    let m: BTreeMap<&str, &str> = pairs.iter().map(|(k, v)| (k.as_str(), v.as_str())).collect();
    serde_json::to_vec(&m)
}

/// Relies on serde_json::from_slice: reading a `BTreeMap<String, String>`
/// succeeds or fails on the bytes alone, and a map has distinct keys.
#[verifier::external_body]
pub(crate) fn decode_kvs(b: &Vec<u8>) -> (r: Result<Vec<(String, String)>, serde_json::Error>)
    ensures
        match r {
            Ok(v) => keys_unique(v@) && kvs_from_json(b@) == Some(pairs_map(v@)),
            Err(_) => kvs_from_json(b@) is None,
        },
{
    serde_json::from_slice::<BTreeMap<String, String>>(b).map(|m| m.into_iter().collect())
}

pub open spec fn digit_char(d: nat) -> char {
    if d == 0 { '0' }
    else if d == 1 { '1' }
    else if d == 2 { '2' }
    else if d == 3 { '3' }
    else if d == 4 { '4' }
    else if d == 5 { '5' }
    else if d == 6 { '6' }
    else if d == 7 { '7' }
    else if d == 8 { '8' }
    else { '9' }
}

/// Decimal notation of `n`, without leading zeros.
pub open spec fn decimal(n: nat) -> Seq<char>
    decreases n,
{
    if n < 10 {
        seq![digit_char(n)]
    } else {
        decimal(n / 10).push(digit_char(n % 10))
    }
}

fn digit_text(d: u64) -> (r: &'static str)
    requires
        d < 10,
    ensures
        r@ == seq![digit_char(d as nat)],
{
    proof {
        reveal_strlit("0");
        reveal_strlit("1");
        reveal_strlit("2");
        reveal_strlit("3");
        reveal_strlit("4");
        reveal_strlit("5");
        reveal_strlit("6");
        reveal_strlit("7");
        reveal_strlit("8");
        reveal_strlit("9");
    }
    if d == 0 {
        "0"
    } else if d == 1 {
        "1"
    } else if d == 2 {
        "2"
    } else if d == 3 {
        "3"
    } else if d == 4 {
        "4"
    } else if d == 5 {
        "5"
    } else if d == 6 {
        "6"
    } else if d == 7 {
        "7"
    } else if d == 8 {
        "8"
    } else {
        "9"
    }
}

/// Decimal notation of `n`.
pub fn decimal_text(n: u64) -> (r: String)
    ensures
        r@ == decimal(n as nat),
    decreases n,
{
    if n < 10 {
        let mut s = String::new();
        s.append(digit_text(n));
        assert(s@ =~= decimal(n as nat));
        s
    } else {
        let mut s = decimal_text(n / 10);
        s.append(digit_text(n % 10));
        s
    }
}

} // verus!
