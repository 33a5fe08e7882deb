//! Tunables of containment.

use vstd::prelude::*;

verus! {

/// How entering a pod treats windows that provably do not belong to it.
#[derive(Debug, Clone, Copy, PartialEq, Eq, Structural)]
pub enum ContainMode {
    /// Translucent veil over foreign windows: present but demoted.
    Dim,
    /// Minimize foreign windows.
    Park,
    /// Hide whole foreign apps.
    Hide,
    /// A space of its own: the pod's minimized windows come back, foreign
    /// windows of the pod's apps are minimized one by one, and apps with no
    /// witness in the work hide whole.
    Stage,
}

impl ContainMode {
    pub const DEFAULT: ContainMode = ContainMode::Stage;
}

} // verus!
