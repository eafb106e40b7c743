//! Builds a "rolling shutter" composite out of an ordered sequence of frames:
//! one thin band (a row or column) is copied from each successive frame into a
//! persistent output buffer, sweeping across the image in a cardinal direction.
//!
//! The library holds the verified core: resolving the ordered frame paths from
//! a file-mask pattern, the band-coordinate geometry, and the frame-by-frame
//! compositing loop. Decoding and encoding image files, progress rendering and
//! argument handling are left to the surrounding program.

use vstd::prelude::*;

pub mod errors;
pub mod file_processing;
pub mod image_processing;

verus! {

/// The *starting* direction of the shutter: the cardinal edge the scan band
/// starts from before sweeping to the opposite side.
#[derive(Copy, Clone, Debug, PartialEq, Eq, Structural)]
pub enum Direction {
    N,
    E,
    S,
    W,
}

/// What `direction_from_str` returns for each view of the input.
pub open spec fn spec_direction_from_str(s: Seq<char>) -> Option<Direction> {
    if s == seq!['N'] {
        Some(Direction::N)
    } else if s == seq!['E'] {
        Some(Direction::E)
    } else if s == seq!['S'] {
        Some(Direction::S)
    } else if s == seq!['W'] {
        Some(Direction::W)
    } else {
        None
    }
}

/// Reads a direction from its single-letter name; any other string is refused.
pub fn direction_from_str(s: &str) -> (r: Option<Direction>)
    ensures
        r == spec_direction_from_str(s@),
{
    if s.unicode_len() != 1 {
        assert(s@ != seq!['N'] && s@ != seq!['E'] && s@ != seq!['S'] && s@ != seq!['W']);
        return None;
    }
    let c = s.get_char(0);
    proof {
        assert(s@ =~= seq![s@[0]]);
    }
    if c == 'N' {
        Some(Direction::N)
    } else if c == 'E' {
        Some(Direction::E)
    } else if c == 'S' {
        Some(Direction::S)
    } else if c == 'W' {
        Some(Direction::W)
    } else {
        None
    }
}

} // verus!
