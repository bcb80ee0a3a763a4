//! Records: a value together with the time it was last used.

use vstd::prelude::*;
use crate::time::epoch_timestamp;

verus! {

/// The year whose first instant is the zero point of every timestamp.
pub const EPOCH_YEAR: u16 = 2025;

/// When a record was last used.
#[derive(Clone, Copy, Debug)]
pub struct ResourceDescriptor {
    /// Milliseconds from the start of [`EPOCH_YEAR`] to the last use.
    pub used: usize,
}

impl Default for ResourceDescriptor {
    /// A descriptor that says "used now", by the system clock.
    fn default() -> Self {
        ResourceDescriptor { used: epoch_timestamp(EPOCH_YEAR) }
    }
}

/// A record: a value and the descriptor of its last use.
#[derive(Clone, Debug)]
pub struct Pearl(pub String, pub ResourceDescriptor);

/// A record as mathematical values.
pub struct PearlView {
    /// The value's characters.
    pub value: Seq<char>,
    /// Milliseconds from the start of [`EPOCH_YEAR`] to the last use.
    pub used: nat,
}

impl View for Pearl {
    type V = PearlView;

    open spec fn view(&self) -> PearlView {
        PearlView { value: self.0@, used: self.1.used as nat }
    }
}

impl Pearl {
    /// A record of `value` that was last used now, by the system clock.
    pub fn new(value: String) -> (pearl: Self)
        ensures
            pearl@.value == value@,
    {
        Pearl(value, ResourceDescriptor::default())
    }

    /// A record of `value` that was last used at `used`.
    pub fn at(value: String, used: usize) -> (pearl: Self)
        ensures
            pearl@ == (PearlView { value: value@, used: used as nat }),
    {
        Pearl(value, ResourceDescriptor { used })
    }
}

} // verus!
