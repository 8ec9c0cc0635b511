//! The description of one machine: a lock, its buttons and its counters.

use vstd::prelude::*;

verus! {

/// One machine, as it is read from a line of the input.
///
/// A machine is read once and never changed. It has a lock of a few
/// indicator bits and, for every bit, a counter. Each button is a set of bit
/// positions, kept as a mask: pressing it toggles those bits of the lock, or
/// adds one to those counters.
#[derive(Debug, Clone)]
pub struct Machine {
    /// The state of the lock that opens it, bit `k` being indicator `k`.
    pub key: usize,
    /// The buttons, bit `k` of a mask being set if the button acts on
    /// position `k`.
    pub buttons: Vec<usize>,
    /// What every counter has to show, counter `k` belonging to bit `k`.
    pub joltage: Vec<usize>,
}

/// A machine as specifications speak of it.
pub struct MachineModel {
    /// The state of the lock that opens it.
    pub key: usize,
    /// The masks of the buttons.
    pub buttons: Seq<usize>,
    /// What every counter has to show.
    pub joltage: Seq<usize>,
}

impl View for Machine {
    type V = MachineModel;

    open spec fn view(&self) -> MachineModel {
        MachineModel { key: self.key, buttons: self.buttons@, joltage: self.joltage@ }
    }
}

/// The models of the machines.
pub open spec fn models(machines: Seq<Machine>) -> Seq<MachineModel> {
    Seq::new(machines.len(), |i: int| machines[i]@)
}

} // verus!
