//! Which self-driving release came with which software of the car.

use crate::text::same_text;
use vstd::prelude::*;

verus! {

/// Software versions and the self-driving releases that came with them.
pub const MAPPINGS: [(&'static str, &'static str); 20] = [
    ("2025.45.5", "v14.2.2"),
    ("2025.45.7", "v14.2.2.2"),
    ("2025.45.8", "v14.2.2.3"),
    ("2025.45.9", "v14.2.2.4"),
    ("2025.45.9.1", "v14.2.2.4"),
    ("2025.45.10", "v14.2.2.5"),
    ("2025.46.5", "v13.2.9"),
    ("2026.2.9.1", "v14.2.2.5"),
    ("2026.2.9.2", "v14.2.2.5"),
    ("2026.2.9.3", "v14.2.2.5"),
    ("2026.2.9.7", "v14.3.1"),
    ("2026.2.9.9", "v14.3.2"),
    ("2026.2.9.10", "v14.3.2"),
    ("2026.4.5", "v14.1.4"),
    ("2026.8.3.10", "v13.2.9"),
    ("2026.14.1", "v14.2.2.5"),
    ("2026.14.2", "v14.2.2.5"),
    ("2026.14.3", "v14.2.2.5"),
    ("2026.14.6", "v14.2.2.5"),
    ("2026.14.6.6", "v14.3.3"),
];

/// The release of the first entry for `car_version` from entry `i` on.
pub open spec fn release_of(car_version: Seq<char>, i: int) -> Option<Seq<char>>
    decreases 20 - i,
{
    if i < 0 || i >= 20 {
        None
    } else if MAPPINGS[i].0@ == car_version {
        Some(MAPPINGS[i].1@)
    } else {
        release_of(car_version, i + 1)
    }
}

/// The release that came with a software version; `None` where it is unknown.
pub fn fsd_version_for(car_version: &str) -> (r: Option<&'static str>)
    ensures
        match (r, release_of(car_version@, 0)) {
            (Some(a), Some(b)) => a@ == b,
            (None, None) => true,
            _ => false,
        },
{
    let table: [(&'static str, &'static str); 20] = MAPPINGS;
    let mut i: usize = 0;
    while i < 20
        invariant
            i <= 20,
            table == MAPPINGS,
            release_of(car_version@, 0) == release_of(car_version@, i as int),
        decreases 20 - i,
    {
        if same_text(table[i].0, car_version) {
            return Some(table[i].1);
        }
        i = i + 1;
    }
    None
}

} // verus!
