//! The protocol identity offered to the transport when a substream is
//! negotiated.

use vstd::prelude::*;

verus! {

/// Names the wire protocol spoken on every substream of this crate.
#[derive(Clone, Debug, PartialEq, Eq, Structural)]
pub struct KamilataProtocolConfig {}

impl KamilataProtocolConfig {
    pub fn new() -> (r: KamilataProtocolConfig)
        ensures
            r == (KamilataProtocolConfig {  }),
    {
        KamilataProtocolConfig {  }
    }

    /// The protocol identification string sent during negotiation.
    pub fn protocol_name(&self) -> (r: &'static str)
        ensures
            r@ == "/kamilata/0.0.1"@,
    {
        "/kamilata/0.0.1"
    }
}

impl Default for KamilataProtocolConfig {
    fn default() -> (r: Self)
        ensures
            r == (KamilataProtocolConfig {  }),
    {
        KamilataProtocolConfig {  }
    }
}

} // verus!
