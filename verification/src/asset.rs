//! Assets and the asset instructions: definition, quantity addition and
//! transfer between accounts.

use vstd::prelude::*;

use crate::isi::{Contract, ExecutionError, ExecutionErrorV, Id, IdV, Instruction};
use crate::world::{WorldStateView, WorldV};

verus! {

/// An asset held by an account, identified by an [`Id`]
/// (asset name and domain name).
#[derive(Clone, Debug, PartialEq)]
pub struct Asset {
    pub id: Id,
}

impl Asset {
    pub fn new(id: Id) -> (r: Self)
        ensures
            r.id@ == id@,
    {
        Asset { id }
    }
}

// ---------------------------------------------------------------------------
// AddAssetQuantity
// ---------------------------------------------------------------------------

/// Records that the identified account holds the identified asset. The
/// `amount` travels with the instruction for audit purposes; holdings are
/// tracked as presence, not as a running balance.
#[derive(Clone, Debug, PartialEq)]
pub struct AddAssetQuantity {
    pub asset_id: Id,
    pub account_id: Id,
    pub amount: u128,
}

/// Mathematical value of an [`AddAssetQuantity`].
#[verifier::ext_equal]
pub ghost struct AddAssetQuantityV {
    pub asset_id: IdV,
    pub account_id: IdV,
    pub amount: u128,
}

impl View for AddAssetQuantity {
    type V = AddAssetQuantityV;

    open spec fn view(&self) -> AddAssetQuantityV {
        AddAssetQuantityV {
            asset_id: self.asset_id@,
            account_id: self.account_id@,
            amount: self.amount,
        }
    }
}

/// Effect of [`AddAssetQuantity`]: when the account exists, it additionally
/// holds the asset; otherwise the world is unchanged and the missing account
/// is reported.
pub open spec fn apply_add_asset_quantity(v: AddAssetQuantityV, w: WorldV) -> (WorldV, Result<
    (),
    ExecutionErrorV,
>) {
    if w.has_account(v.account_id) {
        (w.with_asset(v.account_id, v.asset_id), Ok(()))
    } else {
        (w, Err(ExecutionErrorV::EntityNotFound(v.account_id)))
    }
}

impl Instruction for AddAssetQuantity {
    open spec fn effect(&self, w: WorldV) -> (WorldV, Result<(), ExecutionErrorV>) {
        apply_add_asset_quantity(self@, w)
    }

    fn execute(&self, world_state_view: &mut WorldStateView) -> (r: Result<(), ExecutionError>) {
        if !world_state_view.account_exists(&self.account_id) {
            return Err(ExecutionError::EntityNotFound(self.account_id.clone()));
        }
        let asset = Asset::new(self.asset_id.clone());
        world_state_view.put_asset(&self.account_id, asset);
        Ok(())
    }
}

impl From<AddAssetQuantity> for Contract {
    fn from(command_payload: AddAssetQuantity) -> (r: Contract) {
        Contract::AddAssetQuantity(command_payload)
    }
}

impl vstd::std_specs::convert::FromSpecImpl<AddAssetQuantity> for Contract {
    open spec fn obeys_from_spec() -> bool {
        true
    }

    open spec fn from_spec(v: AddAssetQuantity) -> Contract {
        Contract::AddAssetQuantity(v)
    }
}

// ---------------------------------------------------------------------------
// CreateAsset
// ---------------------------------------------------------------------------

/// Declares a new asset kind, unique within a domain. Whether the domain
/// exists is the caller's responsibility: with the domain present the
/// definition is registered, otherwise nothing changes; no failure is
/// modelled here.
#[derive(Clone, Debug, PartialEq)]
pub struct CreateAsset {
    pub asset_name: String,
    pub domain_id: String,
    pub decimals: u8,
}

/// Mathematical value of a [`CreateAsset`].
#[verifier::ext_equal]
pub ghost struct CreateAssetV {
    pub asset_name: Seq<char>,
    pub domain_id: Seq<char>,
    pub decimals: u8,
}

impl View for CreateAsset {
    type V = CreateAssetV;

    open spec fn view(&self) -> CreateAssetV {
        CreateAssetV {
            asset_name: self.asset_name@,
            domain_id: self.domain_id@,
            decimals: self.decimals,
        }
    }
}

/// Effect of [`CreateAsset`]: registers the definition under its domain when
/// that domain exists; succeeds in any case.
pub open spec fn apply_create_asset(v: CreateAssetV, w: WorldV) -> (WorldV, Result<
    (),
    ExecutionErrorV,
>) {
    (w.with_definition(v.domain_id, v.asset_name, v.decimals), Ok(()))
}

impl Instruction for CreateAsset {
    open spec fn effect(&self, w: WorldV) -> (WorldV, Result<(), ExecutionErrorV>) {
        apply_create_asset(self@, w)
    }

    fn execute(&self, world_state_view: &mut WorldStateView) -> (r: Result<(), ExecutionError>) {
        let definition = crate::world::AssetDefinition {
            name: self.asset_name.clone(),
            decimals: self.decimals,
        };
        world_state_view.add_definition(&self.domain_id, definition);
        Ok(())
    }
}

impl From<CreateAsset> for Contract {
    fn from(command_payload: CreateAsset) -> (r: Contract) {
        Contract::CreateAsset(command_payload)
    }
}

impl vstd::std_specs::convert::FromSpecImpl<CreateAsset> for Contract {
    open spec fn obeys_from_spec() -> bool {
        true
    }

    open spec fn from_spec(v: CreateAsset) -> Contract {
        Contract::CreateAsset(v)
    }
}

// ---------------------------------------------------------------------------
// TransferAsset
// ---------------------------------------------------------------------------

/// Moves the identified asset from the source account to the destination
/// account. The holding is removed from the source and inserted under the
/// same identifier at the destination; the `amount` and `description` travel
/// with the instruction for audit purposes.
#[derive(Clone, Debug, PartialEq)]
pub struct TransferAsset {
    pub source_account_id: Id,
    pub destination_account_id: Id,
    pub asset_id: Id,
    pub description: String,
    pub amount: u128,
}

/// Mathematical value of a [`TransferAsset`].
#[verifier::ext_equal]
pub ghost struct TransferAssetV {
    pub source_account_id: IdV,
    pub destination_account_id: IdV,
    pub asset_id: IdV,
    pub description: Seq<char>,
    pub amount: u128,
}

impl View for TransferAsset {
    type V = TransferAssetV;

    open spec fn view(&self) -> TransferAssetV {
        TransferAssetV {
            source_account_id: self.source_account_id@,
            destination_account_id: self.destination_account_id@,
            asset_id: self.asset_id@,
            description: self.description@,
            amount: self.amount,
        }
    }
}

/// Effect of [`TransferAsset`]: with the source account present and holding
/// the asset, and the destination account present, the holding moves from
/// source to destination; each missing piece is reported in that order and
/// leaves the world unchanged.
pub open spec fn apply_transfer_asset(v: TransferAssetV, w: WorldV) -> (WorldV, Result<
    (),
    ExecutionErrorV,
>) {
    if !w.has_account(v.source_account_id) {
        (w, Err(ExecutionErrorV::EntityNotFound(v.source_account_id)))
    } else if !w.holds_asset(v.source_account_id, v.asset_id) {
        (w, Err(ExecutionErrorV::AssetNotHeld(v.asset_id)))
    } else if !w.has_account(v.destination_account_id) {
        (w, Err(ExecutionErrorV::EntityNotFound(v.destination_account_id)))
    } else {
        (
            w.without_asset(v.source_account_id, v.asset_id).with_asset(
                v.destination_account_id,
                v.asset_id,
            ),
            Ok(()),
        )
    }
}

impl Instruction for TransferAsset {
    open spec fn effect(&self, w: WorldV) -> (WorldV, Result<(), ExecutionErrorV>) {
        apply_transfer_asset(self@, w)
    }

    fn execute(&self, world_state_view: &mut WorldStateView) -> (r: Result<(), ExecutionError>) {
        if !world_state_view.account_exists(&self.source_account_id) {
            return Err(ExecutionError::EntityNotFound(self.source_account_id.clone()));
        }
        if !world_state_view.account_holds(&self.source_account_id, &self.asset_id) {
            return Err(ExecutionError::AssetNotHeld(self.asset_id.clone()));
        }
        if !world_state_view.account_exists(&self.destination_account_id) {
            return Err(ExecutionError::EntityNotFound(self.destination_account_id.clone()));
        }
        proof {
            crate::world::lemma_without_asset_holdings(
                old(world_state_view)@,
                self.source_account_id@,
                self.asset_id@,
                self.destination_account_id@,
                self.asset_id@,
            );
        }
        let taken = world_state_view.take_asset(&self.source_account_id, &self.asset_id);
        match taken {
            Some(asset) => {
                world_state_view.put_asset(&self.destination_account_id, asset);
                Ok(())
            },
            None => {
                // The source was just seen to hold the asset, so the take
                // cannot come back empty.
                proof {
                    assert(false);
                }
                Err(ExecutionError::AssetNotHeld(self.asset_id.clone()))
            },
        }
    }
}

impl From<TransferAsset> for Contract {
    fn from(command_payload: TransferAsset) -> (r: Contract) {
        Contract::TransferAsset(command_payload)
    }
}

impl vstd::std_specs::convert::FromSpecImpl<TransferAsset> for Contract {
    open spec fn obeys_from_spec() -> bool {
        true
    }

    open spec fn from_spec(v: TransferAsset) -> Contract {
        Contract::TransferAsset(v)
    }
}

// ---------------------------------------------------------------------------
// Laws of transfer
// ---------------------------------------------------------------------------

/// The set of accounts that hold `asset` in world `w`.
pub open spec fn holders(w: WorldV, asset: IdV) -> Set<IdV> {
    Set::new(|a: IdV| w.holds_asset(a, asset))
}

/// A transfer moves a holding and duplicates nothing: with the source
/// holding the asset and the destination existing without it, the transfer
/// succeeds, afterwards the source no longer holds the asset, the
/// destination does, and the set of holders is the old set with the source
/// exchanged for the destination — its size cannot grow.
pub proof fn lemma_transfer_moves_asset(v: TransferAssetV, w: WorldV)
    requires
        w.has_account(v.source_account_id),
        w.has_account(v.destination_account_id),
        w.holds_asset(v.source_account_id, v.asset_id),
        !w.holds_asset(v.destination_account_id, v.asset_id),
    ensures
        apply_transfer_asset(v, w).1 == Ok::<(), ExecutionErrorV>(()),
        !apply_transfer_asset(v, w).0.holds_asset(v.source_account_id, v.asset_id),
        apply_transfer_asset(v, w).0.holds_asset(v.destination_account_id, v.asset_id),
        holders(apply_transfer_asset(v, w).0, v.asset_id) == holders(w, v.asset_id).remove(
            v.source_account_id,
        ).insert(v.destination_account_id),
{
    let src = v.source_account_id;
    let dst = v.destination_account_id;
    let g = v.asset_id;
    let w1 = w.without_asset(src, g);
    let w2 = w1.with_asset(dst, g);
    assert forall|a: IdV| #[trigger] w2.holds_asset(a, g) == (holders(w, g).remove(src).insert(
        dst,
    ).contains(a)) by {
        crate::world::lemma_without_asset_holdings(w, src, g, a, g);
        crate::world::lemma_without_asset_holdings(w, src, g, dst, g);
        crate::world::lemma_with_asset_holdings(w1, dst, g, a, g);
    }
    crate::world::lemma_without_asset_holdings(w, src, g, src, g);
    crate::world::lemma_without_asset_holdings(w, src, g, dst, g);
    crate::world::lemma_with_asset_holdings(w1, dst, g, src, g);
    crate::world::lemma_with_asset_holdings(w1, dst, g, dst, g);
    assert(holders(w2, g) =~= holders(w, g).remove(src).insert(dst));
}

/// A transfer whose source account does not exist fails with exactly
/// `EntityNotFound(source)` and does not touch the world.
pub proof fn lemma_transfer_missing_source(v: TransferAssetV, w: WorldV)
    requires
        !w.has_account(v.source_account_id),
    ensures
        apply_transfer_asset(v, w).0 == w,
        apply_transfer_asset(v, w).1 == Err::<(), ExecutionErrorV>(
            ExecutionErrorV::EntityNotFound(v.source_account_id),
        ),
{
}

} // verus!
