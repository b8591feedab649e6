//! Command-line arguments.

use crate::numeral::{parse_unsigned, unsigned_value};
use vstd::prelude::*;
use vstd::utf8::encode_utf8;

verus! {

/// The `i`-th argument read as an unsigned integer no larger than `max`,
/// or `default` when there is no such argument or it does not parse.
pub open spec fn arg_value(args: Seq<String>, i: int, default: nat, max: nat) -> nat {
    if 0 <= i < args.len() {
        match unsigned_value(encode_utf8(args[i]@), max) {
            Some(v) => v,
            None => default,
        }
    } else {
        default
    }
}

/// Reads argument `i` as an unsigned integer of an integer type whose
/// largest value is `max`; a missing or malformed argument gives `default`.
pub fn arg(args: &Vec<String>, i: usize, default: usize, max: usize) -> (r: usize)
    ensures
        r == arg_value(args@, i as int, default as nat, max as nat),
{
    if i < args.len() {
        let s: &str = args[i].as_str();
        match parse_unsigned(s.as_bytes(), max) {
            Some(v) => v,
            None => default,
        }
    } else {
        default
    }
}

} // verus!
