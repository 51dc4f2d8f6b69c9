//! RISC-V architecture IDs (the `marchid` CSR) and their names.

use vstd::prelude::*;

verus! {

/// The name of the core that a `marchid` value identifies.
pub open spec fn march_name(marchid: usize) -> Seq<char> {
    if marchid == 1 {
        "rocket"@
    } else if marchid == 2 {
        "sonicboom"@
    } else if marchid == 5 {
        "spike"@
    } else {
        "unknown"@
    }
}

/// Maps a value read from the `marchid` CSR to the architecture's name.
pub fn get_march(marchid: usize) -> (name: &'static str)
    ensures
        name@ == march_name(marchid),
{
    match marchid {
        1 => "rocket",
        2 => "sonicboom",
        5 => "spike",
        _ => "unknown",
    }
}

} // verus!
