use iroha::account::{AddSignatory, AppendRole, CreateAccount, CreateRole};
use iroha::asset::{AddAssetQuantity, CreateAsset, TransferAsset};
use iroha::domain::CreateDomain;
use iroha::isi::{Assetibility, Contract, ExecutionError, Id, Property, Relation};
use iroha::peer::AddPeer;
use iroha::world::WorldStateView;

fn transfer(source: &str, destination: &str, asset: &str) -> TransferAsset {
    TransferAsset {
        source_account_id: Id::new(source, "domain"),
        destination_account_id: Id::new(destination, "domain"),
        asset_id: Id::new(asset, "domain"),
        description: "d".to_string(),
        amount: 2002,
    }
}

fn world_with_accounts(names: &[&str]) -> WorldStateView {
    let mut wsv = WorldStateView::new();
    Contract::CreateDomain(CreateDomain { domain_name: "domain".to_string() })
        .invoke(&mut wsv)
        .unwrap();
    for name in names {
        Contract::CreateAccount(CreateAccount { account_id: Id::new(name, "domain") })
            .invoke(&mut wsv)
            .unwrap();
    }
    wsv
}

#[test]
fn add_asset_quantity_then_transfer_moves_the_holding() {
    let mut wsv = world_with_accounts(&["account", "dest"]);
    let add = AddAssetQuantity {
        asset_id: Id::new("asset", "domain"),
        account_id: Id::new("account", "domain"),
        amount: 20002,
    };
    Contract::AddAssetQuantity(add).invoke(&mut wsv).unwrap();
    assert!(wsv.account_holds(&Id::new("account", "domain"), &Id::new("asset", "domain")));

    let mut t = transfer("account", "dest", "asset");
    t.amount = 2002;
    Contract::TransferAsset(t).invoke(&mut wsv).unwrap();
    assert!(!wsv.account_holds(&Id::new("account", "domain"), &Id::new("asset", "domain")));
    assert!(wsv.account_holds(&Id::new("dest", "domain"), &Id::new("asset", "domain")));
}

#[test]
fn transfer_from_missing_source_fails_cleanly() {
    let mut wsv = world_with_accounts(&["dest"]);
    let before = wsv.clone();
    let result = Contract::TransferAsset(transfer("missing", "dest", "asset")).invoke(&mut wsv);
    assert_eq!(result, Err(ExecutionError::EntityNotFound(Id::new("missing", "domain"))));
    assert_eq!(wsv, before);
}

#[test]
fn transfer_of_an_asset_the_source_lacks_fails_cleanly() {
    let mut wsv = world_with_accounts(&["account", "dest"]);
    let before = wsv.clone();
    let result = Contract::TransferAsset(transfer("account", "dest", "asset")).invoke(&mut wsv);
    assert_eq!(result, Err(ExecutionError::AssetNotHeld(Id::new("asset", "domain"))));
    assert_eq!(wsv, before);
}

#[test]
fn transfer_to_missing_destination_fails_cleanly() {
    let mut wsv = world_with_accounts(&["account"]);
    let add = AddAssetQuantity {
        asset_id: Id::new("asset", "domain"),
        account_id: Id::new("account", "domain"),
        amount: 1,
    };
    Contract::AddAssetQuantity(add).invoke(&mut wsv).unwrap();
    let before = wsv.clone();
    let result = Contract::TransferAsset(transfer("account", "missing", "asset")).invoke(&mut wsv);
    assert_eq!(result, Err(ExecutionError::EntityNotFound(Id::new("missing", "domain"))));
    assert_eq!(wsv, before);
}

#[test]
fn add_asset_quantity_to_missing_account_fails_cleanly() {
    let mut wsv = world_with_accounts(&[]);
    let before = wsv.clone();
    let add = AddAssetQuantity {
        asset_id: Id::new("asset", "domain"),
        account_id: Id::new("account", "domain"),
        amount: 1,
    };
    let result = Contract::AddAssetQuantity(add).invoke(&mut wsv);
    assert_eq!(result, Err(ExecutionError::EntityNotFound(Id::new("account", "domain"))));
    assert_eq!(wsv, before);
}

#[test]
fn unimplemented_variants_are_explicit() {
    let mut wsv = world_with_accounts(&["account"]);
    let before = wsv.clone();
    let contracts = [
        Contract::AddSignatory(AddSignatory {
            account_id: Id::new("account", "domain"),
            public_key: vec![1, 2, 3],
        }),
        Contract::AppendRole(AppendRole {
            account_id: Id::new("account", "domain"),
            role_name: "admin".to_string(),
        }),
        Contract::CreateRole(CreateRole { role_name: "admin".to_string() }),
        Contract::AddPeer(AddPeer { address: "127.0.0.1:7878".to_string() }),
    ];
    for contract in contracts {
        match contract.invoke(&mut wsv) {
            Err(ExecutionError::UnimplementedInstruction(_)) => {},
            other => panic!("expected an unimplemented-instruction error, got {:?}", other),
        }
    }
    assert_eq!(wsv, before);
}

#[test]
fn replay_of_one_contract_sequence_is_deterministic() {
    let script = || -> Vec<Contract> {
        vec![
            Contract::CreateDomain(CreateDomain { domain_name: "domain".to_string() }),
            Contract::CreateAccount(CreateAccount { account_id: Id::new("a", "domain") }),
            Contract::CreateAccount(CreateAccount { account_id: Id::new("b", "domain") }),
            Contract::AddAssetQuantity(AddAssetQuantity {
                asset_id: Id::new("gold", "domain"),
                account_id: Id::new("a", "domain"),
                amount: 7,
            }),
            Contract::TransferAsset(TransferAsset {
                source_account_id: Id::new("a", "domain"),
                destination_account_id: Id::new("b", "domain"),
                asset_id: Id::new("gold", "domain"),
                description: "pay".to_string(),
                amount: 7,
            }),
            Contract::CreateAsset(CreateAsset {
                asset_name: "gold".to_string(),
                domain_id: "domain".to_string(),
                decimals: 2,
            }),
        ]
    };
    let mut first = WorldStateView::new();
    let mut second = WorldStateView::new();
    let first_results: Vec<_> = script().iter().map(|c| c.invoke(&mut first)).collect();
    let second_results: Vec<_> = script().iter().map(|c| c.invoke(&mut second)).collect();
    assert_eq!(first_results, second_results);
    assert_eq!(first, second);
}

#[test]
fn create_domain_twice_keeps_existing_accounts() {
    let mut wsv = world_with_accounts(&["account"]);
    let before = wsv.clone();
    Contract::CreateDomain(CreateDomain { domain_name: "domain".to_string() })
        .invoke(&mut wsv)
        .unwrap();
    assert_eq!(wsv, before);
}

#[test]
fn create_account_in_missing_domain_fails_cleanly() {
    let mut wsv = WorldStateView::new();
    let before = wsv.clone();
    let result = Contract::CreateAccount(CreateAccount { account_id: Id::new("a", "nowhere") })
        .invoke(&mut wsv);
    assert_eq!(result, Err(ExecutionError::EntityNotFound(Id::new("nowhere", "nowhere"))));
    assert_eq!(wsv, before);
}

#[test]
fn transfer_relations_name_destination_and_source() {
    let contract = Contract::TransferAsset(transfer("source", "destination", "xor"));
    let relations = contract.relations();
    assert_eq!(
        relations,
        vec![
            Relation::GoingTo(Id::new("destination", "domain")),
            Relation::OwnedBy(Id::new("source", "domain")),
        ]
    );
    let other = Contract::CreateDomain(CreateDomain { domain_name: "domain".to_string() });
    assert_eq!(other.relations(), Vec::new());
}

#[test]
fn transfer_assets_name_the_moved_asset() {
    let contract = Contract::TransferAsset(transfer("source", "destination", "xor"));
    assert_eq!(contract.assets(), vec![Id::new("xor", "domain")]);
    let other = Contract::CreateDomain(CreateDomain { domain_name: "domain".to_string() });
    assert_eq!(other.assets(), Vec::new());
}
