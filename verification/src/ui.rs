use vstd::prelude::*;

verus! {

/// A handle for the rendering layer; drawing itself happens in the
/// hosting application, which owns the terminal.
pub struct Ui {
    pub initialized: bool,
}

impl Ui {
    pub fn new() -> (u: Self)
        ensures
            u.initialized,
    {
        Ui { initialized: true }
    }
}

impl Default for Ui {
    fn default() -> (u: Self)
        ensures
            u.initialized,
    {
        Self::new()
    }
}

} // verus!
