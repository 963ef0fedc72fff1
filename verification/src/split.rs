//! Cutting a buffer in two at an index.

use vstd::prelude::*;

verus! {

/// Cuts `data` at `index` into the piece before it and the piece from it on.
/// The second piece is `None` when nothing is left. The two pieces are
/// disjoint, and whatever is later written through them is what `data` ends
/// up holding, in the same places.
pub fn split_mut<'a>(data: &'a mut [u8], index: usize) -> (r: (
    &'a mut [u8],
    Option<&'a mut [u8]>,
))
    requires
        index <= old(data)@.len(),
    ensures
        r.0@ == old(data)@.subrange(0, index as int),
        match r.1 {
            Some(rest) => {
                &&& index < old(data)@.len()
                &&& rest@ == old(data)@.subrange(index as int, old(data)@.len() as int)
                &&& final(data)@ == final(r.0)@ + final(rest)@
            },
            None => {
                &&& index == old(data)@.len()
                &&& final(data)@ == final(r.0)@
            },
        },
{
    let (token, remaining) = data.split_at_mut(index);
    let remaining = if remaining.len() != 0 {
        Some(remaining)
    } else {
        None
    };
    (token, remaining)
}

/// Cuts `data` at `index` into the piece before it and the piece from it on.
/// The second piece is `None` when nothing is left.
pub fn split<'a>(data: &'a [u8], index: usize) -> (r: (&'a [u8], Option<&'a [u8]>))
    requires
        index <= data@.len(),
    ensures
        r.0@ == data@.subrange(0, index as int),
        match r.1 {
            Some(rest) => {
                &&& index < data@.len()
                &&& rest@ == data@.subrange(index as int, data@.len() as int)
            },
            None => index == data@.len(),
        },
{
    let (token, remaining) = data.split_at(index);
    let remaining = if remaining.len() != 0 {
        Some(remaining)
    } else {
        None
    };
    (token, remaining)
}

} // verus!
