use vstd::prelude::*;

verus! {

/// CPU governor tier for the current tick. `Normal` runs everything,
/// `Conserve` and `Critical` shed the work that may be shed.
#[derive(Clone, Copy, Debug, PartialEq, Eq, Structural)]
pub enum Tier {
    Normal,
    Conserve,
    Critical,
}

} // verus!
