//! Single-precision numbers by their bit patterns.

use vstd::prelude::*;

verus! {

/// The pattern is no number.
pub open spec fn not_a_number(bits: u32) -> bool {
    0x7f80_0000 < bits < 0x8000_0000 || bits > 0xff80_0000
}

/// An integer by which patterns are ordered as their numbers are. Both zeros have the same.
pub open spec fn spec_order(bits: u32) -> int {
    if bits < 0x8000_0000 {
        0x8000_0000 + bits
    } else {
        0x8000_0000 - (bits - 0x8000_0000)
    }
}

/// An integer by which patterns are ordered as their numbers are.
pub fn order_of(bits: u32) -> (n: u64)
    ensures
        n == spec_order(bits),
{
    if bits < 0x8000_0000 {
        0x8000_0000 + bits as u64
    } else {
        0x8000_0000 - (bits - 0x8000_0000) as u64
    }
}

/// The one number is greater than the other.
pub open spec fn spec_exceeds(x: u32, y: u32) -> bool {
    !not_a_number(x) && !not_a_number(y) && spec_order(x) > spec_order(y)
}

/// Whether the one number is greater than the other.
pub fn exceeds(x: u32, y: u32) -> (r: bool)
    ensures
        r == spec_exceeds(x, y),
{
    !(0x7f80_0000 < x && x < 0x8000_0000 || x > 0xff80_0000) && !(0x7f80_0000 < y && y < 0x8000_0000
        || y > 0xff80_0000) && order_of(x) > order_of(y)
}

/// Patterns are ordered as their numbers are: above zero the greater pattern is the greater number,
/// below zero the lesser one is, and no number below zero is above one that is not. The two zeros
/// are one number. A pattern past an infinity's is no number, and neither exceeds another nor is
/// exceeded.
pub proof fn lemma_patterns_are_ordered_as_numbers(a: u32, b: u32)
    ensures
        a < 0x8000_0000 && b < 0x8000_0000 ==> (spec_order(a) < spec_order(b) <==> a < b),
        a >= 0x8000_0000 && b >= 0x8000_0000 ==> (spec_order(a) < spec_order(b) <==> a > b),
        a >= 0x8000_0000 && b < 0x8000_0000 ==> spec_order(a) <= spec_order(b) && (spec_order(a)
            == spec_order(b) <==> a == 0x8000_0000 && b == 0),
        spec_exceeds(a, b) ==> spec_order(b) < spec_order(a),
        spec_exceeds(a, b) ==> !spec_exceeds(b, a),
        (0x7f80_0000 < a < 0x8000_0000 || a > 0xff80_0000) ==> !spec_exceeds(a, b)
            && !spec_exceeds(b, a),
        (a <= 0x7f80_0000 || 0x8000_0000 <= a <= 0xff80_0000) && (b <= 0x7f80_0000 || 0x8000_0000
            <= b <= 0xff80_0000) && spec_order(b) < spec_order(a) ==> spec_exceeds(a, b),
        not_a_number(a) <==> 0x7f80_0000 < a < 0x8000_0000 || a > 0xff80_0000,
{
}

} // verus!
