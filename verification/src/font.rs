//! The choice of the console font among those that the system enumerates.

use vstd::prelude::*;

verus! {

/// Whether an enumerated font is taken: the low bit of its pitch-and-family
/// byte marks a fixed-pitch font, and only such a font is taken.
pub fn accept_font(pitch_and_family: u8) -> (taken: bool)
    ensures
        taken == (pitch_and_family & 1u8 == 1u8),
{
    pitch_and_family & 1 == 1
}

/// The length of a NUL-terminated face name: the index of its first 0.
pub fn face_name_len(face: &[u16]) -> (len: usize)
    requires
        exists|i: int| 0 <= i < face@.len() && face@[i] == 0,
    ensures
        len < face@.len(),
        face@[len as int] == 0,
        forall|k: int| 0 <= k < len ==> face@[k] != 0,
{
    let mut i: usize = 0;
    while face[i] != 0
        invariant
            i < face@.len(),
            exists|z: int| i <= z < face@.len() && face@[z] == 0,
            forall|k: int| 0 <= k < i ==> face@[k] != 0,
        decreases face@.len() - i,
    {
        i = i + 1;
    }
    i
}

} // verus!
