//! Bit-position helpers over the 32-bit integers the accumulator uses for
//! levels and indices, and a small string-to-bytes conversion.

use vstd::prelude::*;
use vstd::slice::slice_to_vec;
use vstd::string::StringSliceAdditionalSpecFns;

verus! {

/// Whether bit `n` of `i` is set, over the 32-bit representation.
pub open spec fn bit_set(i: i32, n: i32) -> bool {
    i & (1i32 << n) != 0
}

/// The set bit positions of `i` strictly below `n`, ascending.
pub open spec fn ones_below(i: i32, n: int) -> Seq<i32>
    decreases n,
{
    if n <= 0 {
        Seq::empty()
    } else if bit_set(i, (n - 1) as i32) {
        ones_below(i, n - 1).push((n - 1) as i32)
    } else {
        ones_below(i, n - 1)
    }
}

/// The unset bit positions of `i` strictly below `n`, ascending.
pub open spec fn zeros_below(i: i32, n: int) -> Seq<i32>
    decreases n,
{
    if n <= 0 {
        Seq::empty()
    } else if !bit_set(i, (n - 1) as i32) {
        zeros_below(i, n - 1).push((n - 1) as i32)
    } else {
        zeros_below(i, n - 1)
    }
}

/// All set bit positions of `i` over bits 0..32, ascending.
pub open spec fn ones_of(i: i32) -> Seq<i32> {
    ones_below(i, 32)
}

/// All unset bit positions of `i` over bits 0..32, ascending.
pub open spec fn zeros_of(i: i32) -> Seq<i32> {
    zeros_below(i, 32)
}

/// The UTF-8 bytes of a string, as an owned vector.
pub fn string_to_byte_slice(s: &str) -> (r: Vec<u8>)
    ensures
        r@ == s.spec_bytes(),
{
    slice_to_vec(s.as_bytes())
}

/// Whether bit `n` of `i` is set.
fn bit_test(i: i32, n: i32) -> (r: bool)
    requires
        0 <= n < 32,
    ensures
        r == bit_set(i, n),
{
    (i & (1i32 << n)) != 0
}

/// The bit positions 0..32 that are set in `i`, ascending.
pub fn ones(i: i32) -> (r: Vec<i32>)
    ensures
        r@ == ones_of(i),
        r@.len() <= 32,
        forall|k: int| 0 <= k < r@.len() ==> 0 <= #[trigger] r@[k] < 32,
{
    let mut out: Vec<i32> = Vec::new();
    let mut n: i32 = 0;
    while n < 32
        invariant
            0 <= n <= 32,
            out@ == ones_below(i, n as int),
            out@.len() <= n,
            forall|k: int| 0 <= k < out@.len() ==> 0 <= #[trigger] out@[k] < 32,
        decreases 32 - n,
    {
        if bit_test(i, n) {
            out.push(n);
        }
        n += 1;
    }
    out
}

/// The bit positions 0..32 that are not set in `i`, ascending.
pub fn zeros(i: i32) -> (r: Vec<i32>)
    ensures
        r@ == zeros_of(i),
        r@.len() <= 32,
        forall|k: int| 0 <= k < r@.len() ==> 0 <= #[trigger] r@[k] < 32,
{
    let mut out: Vec<i32> = Vec::new();
    let mut n: i32 = 0;
    while n < 32
        invariant
            0 <= n <= 32,
            out@ == zeros_below(i, n as int),
            out@.len() <= n,
            forall|k: int| 0 <= k < out@.len() ==> 0 <= #[trigger] out@[k] < 32,
        decreases 32 - n,
    {
        if !bit_test(i, n) {
            out.push(n);
        }
        n += 1;
    }
    out
}

} // verus!
