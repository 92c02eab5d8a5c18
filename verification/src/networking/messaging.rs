//! Message channels.
use vstd::prelude::*;

verus! {

/// The network channels messages travel on.
pub enum Channel {
    Default,
    DefaultUnreliable,
    Timing,
    Transforms,
}

impl Channel {
    /// The number that identifies the channel on the wire.
    pub open spec fn spec_id(&self) -> u8 {
        match self {
            Channel::Default => 0,
            Channel::DefaultUnreliable => 1,
            Channel::Timing => 2,
            Channel::Transforms => 3,
        }
    }

    pub fn id(&self) -> (r: u8)
        ensures
            r == self.spec_id(),
    {
        match self {
            Channel::Default => 0,
            Channel::DefaultUnreliable => 1,
            Channel::Timing => 2,
            Channel::Transforms => 3,
        }
    }
}

} // verus!
