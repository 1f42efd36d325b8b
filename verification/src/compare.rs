//! ASCII case-insensitive three-way comparison of names.

use std::cmp::Ordering;
use vstd::prelude::*;
use vstd::string::StringSliceAdditionalSpecFns;
use crate::text::{lex_sign, lower_bytes, ascii_order_sign};

verus! {

/// Compares `a` and `b` byte-wise after ASCII lower-casing both: the first
/// differing byte decides, and a proper prefix comes first.
pub fn ascii_cmp_ignore_case(a: &str, b: &str) -> (r: Ordering)
    ensures
        (r == Ordering::Less) == (lex_sign(lower_bytes(a.spec_bytes()), lower_bytes(b.spec_bytes())) == -1),
        (r == Ordering::Equal) == (lex_sign(lower_bytes(a.spec_bytes()), lower_bytes(b.spec_bytes())) == 0),
        (r == Ordering::Greater) == (lex_sign(lower_bytes(a.spec_bytes()), lower_bytes(b.spec_bytes())) == 1),
{
    let s = ascii_order_sign(a, b);
    if s < 0 {
        Ordering::Less
    } else if s == 0 {
        Ordering::Equal
    } else {
        Ordering::Greater
    }
}

} // verus!
