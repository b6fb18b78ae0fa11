use iroha::account::{AddSignatory, AppendRole, CreateAccount, CreateRole};
use iroha::asset::{AddAssetQuantity, CreateAsset, TransferAsset};
use iroha::codec::DecodeError;
use iroha::domain::CreateDomain;
use iroha::isi::{Contract, Id};
use iroha::peer::AddPeer;

use parity_scale_codec::Encode;

#[test]
fn add_asset_quantity_command_serialization_and_deserialization() {
    let expected = AddAssetQuantity {
        asset_id: Id::new("asset", "domain"),
        account_id: Id::new("account", "domain"),
        amount: 20002,
    };
    let actual = AddAssetQuantity::from_bytes(expected.to_bytes().as_slice()).unwrap();
    assert_eq!(expected, actual);
}

#[test]
fn create_asset_command_serialization_and_deserialization() {
    let expected = CreateAsset {
        asset_name: "asset".to_string(),
        domain_id: "domain".to_string(),
        decimals: 0,
    };
    let actual = CreateAsset::from_bytes(expected.to_bytes().as_slice()).unwrap();
    assert_eq!(expected, actual);
}

#[test]
fn transfer_asset_command_serialization_and_deserialization() {
    let expected = TransferAsset {
        source_account_id: Id::new("source", "domain"),
        destination_account_id: Id::new("destination", "domain"),
        asset_id: Id::new("xor", "domain"),
        description: "description".to_string(),
        amount: 2002,
    };
    let actual = TransferAsset::from_bytes(expected.to_bytes().as_slice()).unwrap();
    assert_eq!(expected, actual);
}

#[test]
fn transfer_asset_command_into_command() {
    let transfer_asset = TransferAsset {
        source_account_id: Id::new("source", "domain"),
        destination_account_id: Id::new("destination", "domain"),
        asset_id: Id::new("xor", "domain"),
        description: "description".to_string(),
        amount: 2002,
    };
    let expected = Contract::TransferAsset(transfer_asset.clone());
    let actual: Contract = transfer_asset.into();
    assert_eq!(expected, actual);
}

#[test]
fn contract_round_trips_through_bytes() {
    let contract = Contract::TransferAsset(TransferAsset {
        source_account_id: Id::new("source", "domain"),
        destination_account_id: Id::new("destination", "domain"),
        asset_id: Id::new("xor", "domain"),
        description: "description".to_string(),
        amount: 2002,
    });
    let bytes = contract.to_bytes();
    let decoded = Contract::from_bytes(bytes.as_slice()).unwrap();
    assert_eq!(contract, decoded);
}

#[test]
fn non_ascii_names_round_trip() {
    let contract = Contract::CreateDomain(CreateDomain {
        domain_name: "döma\u{1F680}in".to_string(),
    });
    let bytes = contract.to_bytes();
    let decoded = Contract::from_bytes(bytes.as_slice()).unwrap();
    assert_eq!(contract, decoded);
}

#[test]
fn payload_encoding_matches_the_scale_wire_format() {
    let payload = AddAssetQuantity {
        asset_id: Id::new("asset", "domain"),
        account_id: Id::new("account", "domain"),
        amount: 20002,
    };
    let reference = (
        ("asset".to_string(), "domain".to_string()),
        ("account".to_string(), "domain".to_string()),
        20002u128,
    )
        .encode();
    assert_eq!(payload.to_bytes(), reference);
}

#[test]
fn contract_encoding_matches_the_scale_wire_format() {
    let contract = Contract::TransferAsset(TransferAsset {
        source_account_id: Id::new("source", "domain"),
        destination_account_id: Id::new("destination", "domain"),
        asset_id: Id::new("xor", "domain"),
        description: "description".to_string(),
        amount: 2002,
    });
    let mut reference = vec![5u8];
    reference.extend(
        (
            ("source".to_string(), "domain".to_string()),
            ("destination".to_string(), "domain".to_string()),
            ("xor".to_string(), "domain".to_string()),
            "description".to_string(),
            2002u128,
        )
            .encode(),
    );
    assert_eq!(contract.to_bytes(), reference);
}

#[test]
fn two_byte_length_prefix_matches_the_scale_wire_format() {
    let long_name: String = "a".repeat(100);
    let payload = CreateAsset {
        asset_name: long_name.clone(),
        domain_id: "domain".to_string(),
        decimals: 7,
    };
    let reference = (long_name, "domain".to_string(), 7u8).encode();
    assert_eq!(payload.to_bytes(), reference);
}

#[test]
fn four_byte_length_prefix_matches_the_scale_wire_format() {
    let long_name: String = "b".repeat(20000);
    let payload = CreateAsset {
        asset_name: long_name.clone(),
        domain_id: "domain".to_string(),
        decimals: 0,
    };
    let reference = (long_name, "domain".to_string(), 0u8).encode();
    assert_eq!(payload.to_bytes(), reference);
}

#[test]
fn empty_input_is_a_decode_error() {
    assert_eq!(Contract::from_bytes(&[]), Err(DecodeError));
}

#[test]
fn unknown_tag_is_a_decode_error() {
    assert_eq!(Contract::from_bytes(&[9u8]), Err(DecodeError));
}

#[test]
fn truncated_input_is_a_decode_error() {
    let contract = Contract::CreateDomain(CreateDomain { domain_name: "domain".to_string() });
    let bytes = contract.to_bytes();
    assert_eq!(Contract::from_bytes(&bytes[..bytes.len() - 1]), Err(DecodeError));
}

#[test]
fn trailing_bytes_are_a_decode_error() {
    let contract = Contract::CreateDomain(CreateDomain { domain_name: "domain".to_string() });
    let mut bytes = contract.to_bytes();
    bytes.push(0);
    assert_eq!(Contract::from_bytes(bytes.as_slice()), Err(DecodeError));
}

#[test]
fn invalid_utf8_is_a_decode_error() {
    // Tag 7 (CreateDomain), a one-byte name whose single byte is not UTF-8.
    assert_eq!(Contract::from_bytes(&[7u8, 4u8, 0xFFu8]), Err(DecodeError));
}

#[test]
fn non_canonical_length_prefix_is_a_decode_error() {
    // A two-byte length prefix declaring length 1, which canonically takes
    // one byte: rejected even though the payload itself is fine.
    assert_eq!(Contract::from_bytes(&[7u8, 0x05u8, 0x00u8, b'a']), Err(DecodeError));
}

#[test]
fn every_payload_round_trips_through_bytes() {
    let add_signatory = AddSignatory {
        account_id: Id::new("account", "domain"),
        public_key: vec![1, 2, 3, 4],
    };
    assert_eq!(
        AddSignatory::from_bytes(add_signatory.to_bytes().as_slice()).unwrap(),
        add_signatory
    );

    let append_role = AppendRole {
        account_id: Id::new("account", "domain"),
        role_name: "admin".to_string(),
    };
    assert_eq!(AppendRole::from_bytes(append_role.to_bytes().as_slice()).unwrap(), append_role);

    let create_account = CreateAccount { account_id: Id::new("account", "domain") };
    assert_eq!(
        CreateAccount::from_bytes(create_account.to_bytes().as_slice()).unwrap(),
        create_account
    );

    let create_role = CreateRole { role_name: "admin".to_string() };
    assert_eq!(CreateRole::from_bytes(create_role.to_bytes().as_slice()).unwrap(), create_role);

    let create_domain = CreateDomain { domain_name: "domain".to_string() };
    assert_eq!(
        CreateDomain::from_bytes(create_domain.to_bytes().as_slice()).unwrap(),
        create_domain
    );

    let add_peer = AddPeer { address: "127.0.0.1:7878".to_string() };
    assert_eq!(AddPeer::from_bytes(add_peer.to_bytes().as_slice()).unwrap(), add_peer);
}

#[test]
fn every_contract_variant_round_trips_through_bytes() {
    let contracts = [
        Contract::AddSignatory(AddSignatory {
            account_id: Id::new("account", "domain"),
            public_key: vec![9, 8, 7],
        }),
        Contract::AppendRole(AppendRole {
            account_id: Id::new("account", "domain"),
            role_name: "admin".to_string(),
        }),
        Contract::CreateAccount(CreateAccount { account_id: Id::new("account", "domain") }),
        Contract::CreateRole(CreateRole { role_name: "admin".to_string() }),
        Contract::AddAssetQuantity(AddAssetQuantity {
            asset_id: Id::new("asset", "domain"),
            account_id: Id::new("account", "domain"),
            amount: 20002,
        }),
        Contract::TransferAsset(TransferAsset {
            source_account_id: Id::new("source", "domain"),
            destination_account_id: Id::new("destination", "domain"),
            asset_id: Id::new("xor", "domain"),
            description: "description".to_string(),
            amount: 2002,
        }),
        Contract::CreateAsset(CreateAsset {
            asset_name: "asset".to_string(),
            domain_id: "domain".to_string(),
            decimals: 0,
        }),
        Contract::CreateDomain(CreateDomain { domain_name: "domain".to_string() }),
        Contract::AddPeer(AddPeer { address: "127.0.0.1:7878".to_string() }),
    ];
    for contract in contracts {
        let bytes = contract.to_bytes();
        assert_eq!(Contract::from_bytes(bytes.as_slice()).unwrap(), contract);
    }
}
