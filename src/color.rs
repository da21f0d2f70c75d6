//! Color stops as plain values.
//!
//! Every component is held as the bit pattern of its IEEE-754 single
//! precision value, so that two stops are equal exactly when their bits are.
use vstd::prelude::*;

verus! {

/// Four color components (red, green, blue, alpha), each the bit pattern of
/// a single precision float.
#[derive(Clone, Copy, Debug, PartialEq, Eq, Structural)]
pub struct Rgba {
    pub r: u32,
    pub g: u32,
    pub b: u32,
    pub a: u32,
}

/// A stop of a gradient: a normalized offset and the straight-alpha color
/// that the gradient takes there.
#[derive(Clone, Copy, Debug, PartialEq, Eq, Structural)]
pub struct ColorStop {
    pub offset: u32,
    pub color: Rgba,
}

/// Compares two stop lists stop by stop, bit for bit.
pub fn same_stops(a: &[ColorStop], b: &[ColorStop]) -> (r: bool)
    ensures
        r == (a@ == b@),
{
    if a.len() != b.len() {
        return false;
    }
    let mut i: usize = 0;
    while i < a.len()
        invariant
            a@.len() == b@.len(),
            i <= a@.len(),
            forall|k: int| 0 <= k < i ==> a@[k] == b@[k],
        decreases a@.len() - i,
    {
        if a[i] != b[i] {
            return false;
        }
        i = i + 1;
    }
    assert(a@ =~= b@);
    true
}

/// An owned copy of a stop list.
pub fn copy_stops(s: &[ColorStop]) -> (r: Vec<ColorStop>)
    ensures
        r@ == s@,
{
    let mut r: Vec<ColorStop> = Vec::new();
    let mut i: usize = 0;
    while i < s.len()
        invariant
            i <= s@.len(),
            r@ == s@.subrange(0, i as int),
        decreases s@.len() - i,
    {
        r.push(s[i]);
        i = i + 1;
        assert(r@ =~= s@.subrange(0, i as int));
    }
    assert(r@ =~= s@);
    r
}

} // verus!
