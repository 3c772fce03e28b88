//! Small string exercises.
use vstd::prelude::*;

verus! {

/// Appends the suffix `-processed` in place.
pub fn append_suffix(value: &mut String)
    ensures
        final(value)@ == old(value)@ + "-processed"@,
{
    value.append("-processed");
}

} // verus!
