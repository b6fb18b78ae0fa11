//! The domain instruction: explicit creation of a named namespace.

use vstd::prelude::*;

use crate::isi::{Contract, ExecutionError, ExecutionErrorV, Instruction};
use crate::world::{WorldStateView, WorldV};

verus! {

/// Registers an empty domain of the given name.
#[derive(Clone, Debug, PartialEq)]
pub struct CreateDomain {
    pub domain_name: String,
}

/// Mathematical value of a [`CreateDomain`].
#[verifier::ext_equal]
pub ghost struct CreateDomainV {
    pub domain_name: Seq<char>,
}

impl View for CreateDomain {
    type V = CreateDomainV;

    open spec fn view(&self) -> CreateDomainV {
        CreateDomainV { domain_name: self.domain_name@ }
    }
}

/// Effect of [`CreateDomain`]: the domain exists afterwards; a name already
/// taken changes nothing (entities are never deleted). Always succeeds.
pub open spec fn apply_create_domain(v: CreateDomainV, w: WorldV) -> (WorldV, Result<
    (),
    ExecutionErrorV,
>) {
    (w.with_domain(v.domain_name), Ok(()))
}

impl Instruction for CreateDomain {
    open spec fn effect(&self, w: WorldV) -> (WorldV, Result<(), ExecutionErrorV>) {
        apply_create_domain(self@, w)
    }

    fn execute(&self, world_state_view: &mut WorldStateView) -> (r: Result<(), ExecutionError>) {
        world_state_view.add_domain(&self.domain_name);
        Ok(())
    }
}

impl From<CreateDomain> for Contract {
    fn from(command_payload: CreateDomain) -> (r: Contract) {
        Contract::CreateDomain(command_payload)
    }
}

impl vstd::std_specs::convert::FromSpecImpl<CreateDomain> for Contract {
    open spec fn obeys_from_spec() -> bool {
        true
    }

    open spec fn from_spec(v: CreateDomain) -> Contract {
        Contract::CreateDomain(v)
    }
}

} // verus!
