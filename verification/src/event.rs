//! Events produced by control interaction, reported back to the host.

use vstd::prelude::*;
use crate::node::NodeId;

verus! {

/// What happened to a control.
#[derive(Debug, Clone, Copy, PartialEq, Eq, Structural)]
pub enum EventKind {
    /// The control's value changed (listeners read the new value).
    ValueChanged,
    /// A single-line input was submitted with Enter.
    Submitted,
    /// A toggle or radio changed its checked state; the payload is 1 for checked, 0 otherwise.
    CheckedChanged(u8),
    /// A dropdown or tab list committed a new selection; the payload is the new index.
    SelectionChanged(usize),
    /// A slider drag ended; the payload is the final value's IEEE-754 single-precision bits.
    ChangeCommitted(u32),
}

/// One control event at a node.
#[derive(Debug, Clone, Copy, PartialEq, Eq, Structural)]
pub struct ControlEvent {
    pub node: NodeId,
    pub kind: EventKind,
}

/// Payload byte of a checked-state change: 1 for checked, 0 for unchecked.
pub fn checked_to_u8(b: bool) -> (r: u8)
    ensures
        r == (if b {
            1u8
        } else {
            0u8
        }),
{
    if b {
        1
    } else {
        0
    }
}

} // verus!
