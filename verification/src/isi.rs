//! Identifiers, the instruction vocabulary (`Contract`), dispatch, and the
//! projections that report which accounts and assets an instruction touches.

use vstd::prelude::*;

use crate::account::{AddSignatory, AppendRole, CreateAccount, CreateRole};
use crate::asset::{AddAssetQuantity, CreateAsset, TransferAsset};
use crate::domain::CreateDomain;
use crate::peer::AddPeer;
use crate::world::{WorldStateView, WorldV};

verus! {

/// Identification of a ledger entity: the entity's name and its domain's name.
/// Two identifiers are equal exactly when both components are equal.
#[derive(Debug)]
pub struct Id(pub String, pub String);

/// Mathematical value of an [`Id`]: the two name components as character
/// sequences.
#[verifier::ext_equal]
pub ghost struct IdV {
    pub name: Seq<char>,
    pub domain: Seq<char>,
}

impl View for Id {
    type V = IdV;

    open spec fn view(&self) -> IdV {
        IdV { name: self.0@, domain: self.1@ }
    }
}

impl Id {
    pub fn new(entity_name: &str, domain_name: &str) -> (r: Self)
        ensures
            r@ == (IdV { name: entity_name@, domain: domain_name@ }),
    {
        Id(entity_name.to_owned(), domain_name.to_owned())
    }
}

impl Clone for Id {
    fn clone(&self) -> (r: Self)
        ensures
            r@ == self@,
    {
        Id(self.0.clone(), self.1.clone())
    }
}

impl PartialEq for Id {
    fn eq(&self, other: &Id) -> (r: bool) {
        self.0 == other.0 && self.1 == other.1
    }
}

impl vstd::std_specs::cmp::PartialEqSpecImpl for Id {
    open spec fn obeys_eq_spec() -> bool {
        true
    }

    open spec fn eq_spec(&self, other: &Id) -> bool {
        self@ == other@
    }
}

// ---------------------------------------------------------------------------
// Execution errors
// ---------------------------------------------------------------------------

/// A typed execution failure. Every failing instruction returns one of these
/// and leaves the world state untouched.
#[derive(Clone, Debug, PartialEq)]
pub enum ExecutionError {
    /// A referenced account or domain does not exist.
    EntityNotFound(Id),
    /// The transfer source does not hold the referenced asset.
    AssetNotHeld(Id),
    /// The dispatched variant carries no execution semantics yet; the
    /// variant's name is reported.
    UnimplementedInstruction(String),
}

/// Mathematical value of an [`ExecutionError`].
pub ghost enum ExecutionErrorV {
    EntityNotFound(IdV),
    AssetNotHeld(IdV),
    UnimplementedInstruction(Seq<char>),
}

impl View for ExecutionError {
    type V = ExecutionErrorV;

    open spec fn view(&self) -> ExecutionErrorV {
        match self {
            ExecutionError::EntityNotFound(id) => ExecutionErrorV::EntityNotFound(id@),
            ExecutionError::AssetNotHeld(id) => ExecutionErrorV::AssetNotHeld(id@),
            ExecutionError::UnimplementedInstruction(name) =>
                ExecutionErrorV::UnimplementedInstruction(name@),
        }
    }
}

/// The mathematical value of an execution result.
pub open spec fn result_view(r: Result<(), ExecutionError>) -> Result<(), ExecutionErrorV> {
    match r {
        Ok(_) => Ok(()),
        Err(e) => Err(e@),
    }
}

// ---------------------------------------------------------------------------
// The instruction capability
// ---------------------------------------------------------------------------

/// The capability every executable command implements: apply self to the
/// world state, succeed or report a typed failure. The effect is pinned by
/// `effect`, a function of the instruction's and the world's mathematical
/// values alone, so execution is deterministic across replicas; a failing
/// execution leaves the world state exactly as it was.
pub trait Instruction {
    /// The mathematical effect: the next world and the result.
    spec fn effect(&self, w: WorldV) -> (WorldV, Result<(), ExecutionErrorV>);

    /// Applies the instruction to the world state.
    fn execute(&self, world_state_view: &mut WorldStateView) -> (r: Result<(), ExecutionError>)
        requires
            old(world_state_view).wf(),
        ensures
            final(world_state_view).wf(),
            final(world_state_view)@ == self.effect(old(world_state_view)@).0,
            result_view(r) == self.effect(old(world_state_view)@).1,
            r is Err ==> *final(world_state_view) == *old(world_state_view),
    ;
}

// ---------------------------------------------------------------------------
// The contract: the closed union of all instructions
// ---------------------------------------------------------------------------

/// The closed tagged union over the instruction vocabulary: the unit of wire
/// transfer and dispatch. The variant order is part of the wire format and
/// must stay stable.
#[derive(Clone, Debug, PartialEq)]
pub enum Contract {
    AddSignatory(AddSignatory),
    AppendRole(AppendRole),
    CreateAccount(CreateAccount),
    CreateRole(CreateRole),
    AddAssetQuantity(AddAssetQuantity),
    TransferAsset(TransferAsset),
    CreateAsset(CreateAsset),
    CreateDomain(CreateDomain),
    AddPeer(AddPeer),
}

/// Mathematical value of a [`Contract`].
pub ghost enum ContractV {
    AddSignatory(crate::account::AddSignatoryV),
    AppendRole(crate::account::AppendRoleV),
    CreateAccount(crate::account::CreateAccountV),
    CreateRole(crate::account::CreateRoleV),
    AddAssetQuantity(crate::asset::AddAssetQuantityV),
    TransferAsset(crate::asset::TransferAssetV),
    CreateAsset(crate::asset::CreateAssetV),
    CreateDomain(crate::domain::CreateDomainV),
    AddPeer(crate::peer::AddPeerV),
}

impl View for Contract {
    type V = ContractV;

    open spec fn view(&self) -> ContractV {
        match self {
            Contract::AddSignatory(v) => ContractV::AddSignatory(v@),
            Contract::AppendRole(v) => ContractV::AppendRole(v@),
            Contract::CreateAccount(v) => ContractV::CreateAccount(v@),
            Contract::CreateRole(v) => ContractV::CreateRole(v@),
            Contract::AddAssetQuantity(v) => ContractV::AddAssetQuantity(v@),
            Contract::TransferAsset(v) => ContractV::TransferAsset(v@),
            Contract::CreateAsset(v) => ContractV::CreateAsset(v@),
            Contract::CreateDomain(v) => ContractV::CreateDomain(v@),
            Contract::AddPeer(v) => ContractV::AddPeer(v@),
        }
    }
}

/// The effect of dispatching a contract: executable variants delegate to
/// their instruction's effect; the rest leave the world unchanged and
/// report themselves as unimplemented by name.
pub open spec fn apply(c: ContractV, w: WorldV) -> (WorldV, Result<(), ExecutionErrorV>) {
    match c {
        ContractV::AddAssetQuantity(v) => crate::asset::apply_add_asset_quantity(v, w),
        ContractV::CreateAccount(v) => crate::account::apply_create_account(v, w),
        ContractV::CreateDomain(v) => crate::domain::apply_create_domain(v, w),
        ContractV::TransferAsset(v) => crate::asset::apply_transfer_asset(v, w),
        ContractV::CreateAsset(v) => crate::asset::apply_create_asset(v, w),
        ContractV::AddSignatory(_) => (
            w,
            Err(ExecutionErrorV::UnimplementedInstruction("AddSignatory"@)),
        ),
        ContractV::AppendRole(_) => (
            w,
            Err(ExecutionErrorV::UnimplementedInstruction("AppendRole"@)),
        ),
        ContractV::CreateRole(_) => (
            w,
            Err(ExecutionErrorV::UnimplementedInstruction("CreateRole"@)),
        ),
        ContractV::AddPeer(_) => (
            w,
            Err(ExecutionErrorV::UnimplementedInstruction("AddPeer"@)),
        ),
    }
}

impl Contract {
    /// Dispatches on the variant and executes it against the world state.
    /// The match is exhaustive: adding a variant forces this site to be
    /// revisited. Variants without execution semantics fail explicitly.
    pub fn invoke(&self, world_state_view: &mut WorldStateView) -> (r: Result<
        (),
        ExecutionError,
    >)
        requires
            old(world_state_view).wf(),
        ensures
            final(world_state_view).wf(),
            final(world_state_view)@ == apply(self@, old(world_state_view)@).0,
            result_view(r) == apply(self@, old(world_state_view)@).1,
            r is Err ==> *final(world_state_view) == *old(world_state_view),
    {
        match self {
            Contract::AddAssetQuantity(instruction) => instruction.execute(world_state_view),
            Contract::CreateAccount(instruction) => instruction.execute(world_state_view),
            Contract::CreateDomain(instruction) => instruction.execute(world_state_view),
            Contract::TransferAsset(instruction) => instruction.execute(world_state_view),
            Contract::CreateAsset(instruction) => instruction.execute(world_state_view),
            Contract::AddSignatory(_) => Err(ExecutionError::UnimplementedInstruction(
                "AddSignatory".to_owned(),
            )),
            Contract::AppendRole(_) => Err(ExecutionError::UnimplementedInstruction(
                "AppendRole".to_owned(),
            )),
            Contract::CreateRole(_) => Err(ExecutionError::UnimplementedInstruction(
                "CreateRole".to_owned(),
            )),
            Contract::AddPeer(_) => Err(ExecutionError::UnimplementedInstruction(
                "AddPeer".to_owned(),
            )),
        }
    }
}

// ---------------------------------------------------------------------------
// Relations and asset projections
// ---------------------------------------------------------------------------

/// A derived fact that a contract references an account in a given role.
#[derive(Clone, Debug, PartialEq)]
pub enum Relation {
    /// The referenced account owns what the contract operates on.
    OwnedBy(Id),
    /// The contract sends something to the referenced account.
    GoingTo(Id),
}

/// Mathematical value of a [`Relation`].
pub ghost enum RelationV {
    OwnedBy(IdV),
    GoingTo(IdV),
}

impl View for Relation {
    type V = RelationV;

    open spec fn view(&self) -> RelationV {
        match self {
            Relation::OwnedBy(id) => RelationV::OwnedBy(id@),
            Relation::GoingTo(id) => RelationV::GoingTo(id@),
        }
    }
}

/// Reports which accounts a value references and in which role. An empty
/// projection means "not yet classified", not "touches nothing".
pub trait Property {
    /// The projected relations as mathematical values.
    spec fn spec_relations(&self) -> Seq<RelationV>;

    /// The projected relations.
    fn relations(&self) -> (r: Vec<Relation>)
        ensures
            r@.map_values(|x: Relation| x@) == self.spec_relations(),
    ;
}

impl Property for Contract {
    open spec fn spec_relations(&self) -> Seq<RelationV> {
        match self {
            Contract::TransferAsset(instruction) => seq![
                RelationV::GoingTo(instruction.destination_account_id@),
                RelationV::OwnedBy(instruction.source_account_id@),
            ],
            _ => Seq::empty(),
        }
    }

    fn relations(&self) -> (r: Vec<Relation>) {
        match self {
            Contract::TransferAsset(instruction) => {
                let mut r: Vec<Relation> = Vec::new();
                r.push(Relation::GoingTo(instruction.destination_account_id.clone()));
                r.push(Relation::OwnedBy(instruction.source_account_id.clone()));
                proof {
                    assert(r@.map_values(|x: Relation| x@) =~= self.spec_relations());
                }
                r
            },
            _ => {
                let r: Vec<Relation> = Vec::new();
                proof {
                    assert(r@.map_values(|x: Relation| x@) =~= self.spec_relations());
                }
                r
            },
        }
    }
}

/// Reports which assets a value references.
pub trait Assetibility {
    /// The projected asset identifiers as mathematical values.
    spec fn spec_assets(&self) -> Seq<IdV>;

    /// The projected asset identifiers.
    fn assets(&self) -> (r: Vec<Id>)
        ensures
            r@.map_values(|x: Id| x@) == self.spec_assets(),
    ;
}

impl Assetibility for Contract {
    open spec fn spec_assets(&self) -> Seq<IdV> {
        match self {
            Contract::TransferAsset(instruction) => seq![instruction.asset_id@],
            _ => Seq::empty(),
        }
    }

    fn assets(&self) -> (r: Vec<Id>) {
        match self {
            Contract::TransferAsset(instruction) => {
                let mut r: Vec<Id> = Vec::new();
                r.push(instruction.asset_id.clone());
                proof {
                    assert(r@.map_values(|x: Id| x@) =~= self.spec_assets());
                }
                r
            },
            _ => {
                let r: Vec<Id> = Vec::new();
                proof {
                    assert(r@.map_values(|x: Id| x@) =~= self.spec_assets());
                }
                r
            },
        }
    }
}

// ---------------------------------------------------------------------------
// Laws of dispatch
// ---------------------------------------------------------------------------

/// The world reached by applying an ordered sequence of contracts, each to
/// the world the previous one produced (failures leave it unchanged).
pub open spec fn apply_all(contracts: Seq<ContractV>, w: WorldV) -> WorldV
    decreases contracts.len(),
{
    if contracts.len() == 0 {
        w
    } else {
        apply_all(contracts.drop_first(), apply(contracts.first(), w).0)
    }
}

/// Determinism of replay: the same ordered contracts applied to equal world
/// states end in equal world states. Together with `Contract::invoke`, whose
/// contract pins the resulting state to `apply` of the old state alone, two
/// replicas that start out identical stay identical.
pub proof fn lemma_deterministic_replay(contracts: Seq<ContractV>, w1: WorldV, w2: WorldV)
    requires
        w1 == w2,
    ensures
        apply_all(contracts, w1) == apply_all(contracts, w2),
{
}

/// A variant without execution semantics reports itself and never succeeds,
/// and the world state stays exactly as it was.
pub proof fn lemma_unimplemented_is_explicit(c: ContractV, w: WorldV)
    requires
        c is AddSignatory || c is AppendRole || c is CreateRole || c is AddPeer,
    ensures
        apply(c, w).0 == w,
        apply(c, w).1 is Err,
        apply(c, w).1->Err_0 is UnimplementedInstruction,
{
}

} // verus!
