//! The peer instruction: registration of a network participant. Part of the
//! vocabulary; no execution semantics in this core yet.

use vstd::prelude::*;

verus! {

/// Registers a network peer by its address.
#[derive(Clone, Debug, PartialEq)]
pub struct AddPeer {
    pub address: String,
}

/// Mathematical value of an [`AddPeer`].
#[verifier::ext_equal]
pub ghost struct AddPeerV {
    pub address: Seq<char>,
}

impl View for AddPeer {
    type V = AddPeerV;

    open spec fn view(&self) -> AddPeerV {
        AddPeerV { address: self.address@ }
    }
}

} // verus!
