//! Account instructions: account creation and the signatory/role commands
//! that are part of the vocabulary but carry no execution semantics yet.

use vstd::prelude::*;

use crate::isi::{Contract, ExecutionError, ExecutionErrorV, Id, IdV, Instruction};
use crate::world::{WorldStateView, WorldV};

verus! {

/// Registers an empty account under the domain its identifier names.
#[derive(Clone, Debug, PartialEq)]
pub struct CreateAccount {
    pub account_id: Id,
}

/// Mathematical value of a [`CreateAccount`].
#[verifier::ext_equal]
pub ghost struct CreateAccountV {
    pub account_id: IdV,
}

impl View for CreateAccount {
    type V = CreateAccountV;

    open spec fn view(&self) -> CreateAccountV {
        CreateAccountV { account_id: self.account_id@ }
    }
}

/// The identifier under which a domain itself is reported missing: both
/// components are the domain's name.
pub open spec fn domain_id_v(name: Seq<char>) -> IdV {
    IdV { name, domain: name }
}

/// Effect of [`CreateAccount`]: with the domain present, the account exists
/// afterwards (an identifier already in use changes nothing); a missing
/// domain is reported and changes nothing.
pub open spec fn apply_create_account(v: CreateAccountV, w: WorldV) -> (WorldV, Result<
    (),
    ExecutionErrorV,
>) {
    if w.has_domain(v.account_id.domain) {
        (w.with_account(v.account_id), Ok(()))
    } else {
        (w, Err(ExecutionErrorV::EntityNotFound(domain_id_v(v.account_id.domain))))
    }
}

impl Instruction for CreateAccount {
    open spec fn effect(&self, w: WorldV) -> (WorldV, Result<(), ExecutionErrorV>) {
        apply_create_account(self@, w)
    }

    fn execute(&self, world_state_view: &mut WorldStateView) -> (r: Result<(), ExecutionError>) {
        if !world_state_view.domain_exists(&self.account_id.1) {
            return Err(ExecutionError::EntityNotFound(Id(
                self.account_id.1.clone(),
                self.account_id.1.clone(),
            )));
        }
        world_state_view.create_account(&self.account_id);
        Ok(())
    }
}

impl From<CreateAccount> for Contract {
    fn from(command_payload: CreateAccount) -> (r: Contract) {
        Contract::CreateAccount(command_payload)
    }
}

impl vstd::std_specs::convert::FromSpecImpl<CreateAccount> for Contract {
    open spec fn obeys_from_spec() -> bool {
        true
    }

    open spec fn from_spec(v: CreateAccount) -> Contract {
        Contract::CreateAccount(v)
    }
}

/// Attaches a signatory key to an account. Part of the vocabulary; no
/// execution semantics in this core yet.
#[derive(Clone, Debug, PartialEq)]
pub struct AddSignatory {
    pub account_id: Id,
    pub public_key: Vec<u8>,
}

/// Mathematical value of an [`AddSignatory`].
#[verifier::ext_equal]
pub ghost struct AddSignatoryV {
    pub account_id: IdV,
    pub public_key: Seq<u8>,
}

impl View for AddSignatory {
    type V = AddSignatoryV;

    open spec fn view(&self) -> AddSignatoryV {
        AddSignatoryV { account_id: self.account_id@, public_key: self.public_key@ }
    }
}

/// Grants a named role to an account. Part of the vocabulary; no execution
/// semantics in this core yet.
#[derive(Clone, Debug, PartialEq)]
pub struct AppendRole {
    pub account_id: Id,
    pub role_name: String,
}

/// Mathematical value of an [`AppendRole`].
#[verifier::ext_equal]
pub ghost struct AppendRoleV {
    pub account_id: IdV,
    pub role_name: Seq<char>,
}

impl View for AppendRole {
    type V = AppendRoleV;

    open spec fn view(&self) -> AppendRoleV {
        AppendRoleV { account_id: self.account_id@, role_name: self.role_name@ }
    }
}

/// Declares a named role. Part of the vocabulary; no execution semantics in
/// this core yet.
#[derive(Clone, Debug, PartialEq)]
pub struct CreateRole {
    pub role_name: String,
}

/// Mathematical value of a [`CreateRole`].
#[verifier::ext_equal]
pub ghost struct CreateRoleV {
    pub role_name: Seq<char>,
}

impl View for CreateRole {
    type V = CreateRoleV;

    open spec fn view(&self) -> CreateRoleV {
        CreateRoleV { role_name: self.role_name@ }
    }
}

} // verus!
