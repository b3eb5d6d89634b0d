use vstd::prelude::*;

verus! {

/// The decimal digits, in order of value.
pub open spec fn digits() -> Seq<char> {
    seq!['0', '1', '2', '3', '4', '5', '6', '7', '8', '9']
}

/// `n` written in decimal, without leading zeros.
pub open spec fn decimal(n: nat) -> Seq<char>
    decreases n,
{
    if n < 10 {
        seq![digits()[n as int]]
    } else {
        decimal(n / 10).push(digits()[(n % 10) as int])
    }
}

/// The object key a readout is uploaded under when none is configured:
/// namespaced and stamped with the unix time `seconds_since_epoch`, so that
/// repeated runs do not overwrite each other.
pub open spec fn readout_key(seconds_since_epoch: nat) -> Seq<char> {
    "schism/readout-"@ + decimal(seconds_since_epoch) + ".json"@
}

fn append_digit(s: &mut String, d: u64)
    requires
        d < 10,
    ensures
        final(s)@ == old(s)@.push(digits()[d as int]),
{
    proof {
        reveal_strlit("0");
        reveal_strlit("1");
        reveal_strlit("2");
        reveal_strlit("3");
        reveal_strlit("4");
        reveal_strlit("5");
        reveal_strlit("6");
        reveal_strlit("7");
        reveal_strlit("8");
        reveal_strlit("9");
    }
    match d {
        0 => s.append("0"),
        1 => s.append("1"),
        2 => s.append("2"),
        3 => s.append("3"),
        4 => s.append("4"),
        5 => s.append("5"),
        6 => s.append("6"),
        7 => s.append("7"),
        8 => s.append("8"),
        _ => s.append("9"),
    }
    assert(s@ =~= old(s)@.push(digits()[d as int]));
}

fn append_decimal(s: &mut String, n: u64)
    ensures
        final(s)@ == old(s)@ + decimal(n as nat),
    decreases n,
{
    if n >= 10 {
        append_decimal(s, n / 10);
    }
    append_digit(s, n % 10);
    assert(s@ =~= old(s)@ + decimal(n as nat));
}

/// The object key for a readout uploaded at `seconds_since_epoch`:
/// `schism/readout-<seconds>.json`.
pub fn default_key(seconds_since_epoch: u64) -> (r: String)
    ensures
        r@ == readout_key(seconds_since_epoch as nat),
{
    let mut key = "schism/readout-".to_owned();
    append_decimal(&mut key, seconds_since_epoch);
    key.append(".json");
    key
}

/// Where a readout goes, from the configured `bucket` and object `key`: no
/// upload at all when no bucket, or an empty one, is configured; otherwise
/// that bucket, under the configured key, or under the default key for
/// `seconds_since_epoch` when none is configured.
pub fn upload_destination(bucket: Option<String>, key: Option<String>, seconds_since_epoch: u64) -> (r:
    Option<(String, String)>)
    ensures
        r is None <==> match bucket {
            Some(b) => b@.len() == 0,
            None => true,
        },
        r matches Some(d) ==> {
            &&& d.0@ == bucket.unwrap()@
            &&& d.1@ == match key {
                Some(k) => k@,
                None => readout_key(seconds_since_epoch as nat),
            }
        },
{
    match bucket {
        None => None,
        Some(b) => {
            if b.as_str().is_empty() {
                None
            } else {
                let k = match key {
                    Some(k) => k,
                    None => default_key(seconds_since_epoch),
                };
                Some((b, k))
            }
        },
    }
}

} // verus!
