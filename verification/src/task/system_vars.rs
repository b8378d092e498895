use vstd::prelude::*;

verus! {

/// Settings of the running shell.
pub struct SystemVars {
    /// The sector of the current directory.
    pub current_dir: u32,
}

impl Default for SystemVars {
    /// The root directory, in sector 0, is current at start.
    fn default() -> (vars: Self)
        ensures
            vars.current_dir == 0,
    {
        SystemVars { current_dir: 0x0 }
    }
}

} // verus!
