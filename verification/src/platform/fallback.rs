use vstd::prelude::*;

verus! {

/// Console detection where the platform offers none: the program is taken to
/// run in a console.
pub fn is_running_in_console() -> (r: bool)
    ensures
        r,
{
    true
}

} // verus!
