//! Stable, generational identifiers for nodes and ports.
//!
//! An id pairs an arena slot index with that slot's generation at the time
//! the value was inserted. Removing a value bumps the slot's generation, so
//! ids stay stable across unrelated removals and a lookup with a removed
//! ("stale") id never resolves again.

use crate::arena::ArenaKey;
use vstd::prelude::*;

verus! {

/// Identifier of a node.
#[derive(Clone, Copy, Debug, PartialEq, Eq, Hash, Structural)]
pub struct NodeId {
    pub slot: usize,
    pub version: u64,
}

/// Identifier of an input port.
#[derive(Clone, Copy, Debug, PartialEq, Eq, Hash, Structural)]
pub struct InputId {
    pub slot: usize,
    pub version: u64,
}

/// Identifier of an output port.
#[derive(Clone, Copy, Debug, PartialEq, Eq, Hash, Structural)]
pub struct OutputId {
    pub slot: usize,
    pub version: u64,
}

impl ArenaKey for NodeId {
    open spec fn slot_of(self) -> int {
        self.slot as int
    }

    open spec fn version_of(self) -> int {
        self.version as int
    }

    open spec fn key_of(slot: int, version: int) -> Self {
        NodeId { slot: slot as usize, version: version as u64 }
    }

    fn make(slot: usize, version: u64) -> Self {
        NodeId { slot, version }
    }

    fn slot(self) -> usize {
        self.slot
    }

    fn version(self) -> u64 {
        self.version
    }

    proof fn lemma_key_eq(a: Self, b: Self) {
    }
}

impl ArenaKey for InputId {
    open spec fn slot_of(self) -> int {
        self.slot as int
    }

    open spec fn version_of(self) -> int {
        self.version as int
    }

    open spec fn key_of(slot: int, version: int) -> Self {
        InputId { slot: slot as usize, version: version as u64 }
    }

    fn make(slot: usize, version: u64) -> Self {
        InputId { slot, version }
    }

    fn slot(self) -> usize {
        self.slot
    }

    fn version(self) -> u64 {
        self.version
    }

    proof fn lemma_key_eq(a: Self, b: Self) {
    }
}

impl ArenaKey for OutputId {
    open spec fn slot_of(self) -> int {
        self.slot as int
    }

    open spec fn version_of(self) -> int {
        self.version as int
    }

    open spec fn key_of(slot: int, version: int) -> Self {
        OutputId { slot: slot as usize, version: version as u64 }
    }

    fn make(slot: usize, version: u64) -> Self {
        OutputId { slot, version }
    }

    fn slot(self) -> usize {
        self.slot
    }

    fn version(self) -> u64 {
        self.version
    }

    proof fn lemma_key_eq(a: Self, b: Self) {
    }
}

/// Tagged union over the two port id spaces.
#[derive(Clone, Copy, Debug, PartialEq, Eq, Hash, Structural)]
pub enum AnyParameterId {
    Input(InputId),
    Output(OutputId),
}

impl AnyParameterId {
    /// Extract the input id; calling this on an output id is a usage error.
    pub fn assume_input(self) -> (r: InputId)
        requires
            self is Input,
        ensures
            self == AnyParameterId::Input(r),
    {
        match self {
            AnyParameterId::Input(i) => i,
            AnyParameterId::Output(_) => {
                proof {
                    assert(false);
                }
                InputId { slot: 0, version: 0 }
            },
        }
    }

    /// Extract the output id; calling this on an input id is a usage error.
    pub fn assume_output(self) -> (r: OutputId)
        requires
            self is Output,
        ensures
            self == AnyParameterId::Output(r),
    {
        match self {
            AnyParameterId::Output(o) => o,
            AnyParameterId::Input(_) => {
                proof {
                    assert(false);
                }
                OutputId { slot: 0, version: 0 }
            },
        }
    }
}

} // verus!
