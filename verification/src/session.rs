//! Pure state for an interactive session: the input mode and the cyclic
//! cursor arithmetic used by list and table selection.

use vstd::prelude::*;

verus! {

/// The four modes of an interactive session: viewing the portfolio,
/// editing an asset value, entering a contribution to rebalance, and
/// showing a validation error.
#[derive(Debug, Clone, Copy, PartialEq, Eq, Structural)]
pub enum InputMode {
    Normal,
    Editing,
    Exec,
    ErrorDisplay,
}

/// The row selected after moving down by one, wrapping at the end; with no
/// selection the first row.
pub fn cycle_next(selected: Option<usize>, len: usize) -> (r: usize)
    requires
        len >= 1,
        selected matches Some(i) ==> i < len,
    ensures
        r < len,
        r == match selected {
            Some(i) => if i >= len - 1 {
                0int
            } else {
                i + 1
            },
            None => 0int,
        },
{
    match selected {
        Some(i) => if i >= len - 1 {
            0
        } else {
            i + 1
        },
        None => 0,
    }
}

/// The row selected after moving up by one, wrapping at the start; with no
/// selection the first row.
pub fn cycle_previous(selected: Option<usize>, len: usize) -> (r: usize)
    requires
        len >= 1,
        selected matches Some(i) ==> i < len,
    ensures
        r < len,
        r == match selected {
            Some(i) => if i == 0 {
                len - 1
            } else {
                i - 1
            },
            None => 0int,
        },
{
    match selected {
        Some(i) => if i == 0 {
            len - 1
        } else {
            i - 1
        },
        None => 0,
    }
}

} // verus!
