//! Switches among the learning model's options.

use vstd::prelude::*;

verus! {

/// A switch that is either on or off.
#[derive(Clone, Copy, Debug, PartialEq, Eq, Structural)]
pub enum OnOff {
    On,
    Off,
}

} // verus!
