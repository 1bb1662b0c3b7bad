use dex_engine::bridge::{
    AssetMapping, BridgeContract, BridgeError, ChainConfig, ExternalChain, Message, Operation,
    TransferDirection, TransferStatus, ValidatorConfig,
};
use dex_engine::types::Account;

fn usdt_mapping() -> AssetMapping {
    AssetMapping {
        local_asset: "USDT".to_string(),
        external_asset: "USDT".to_string(),
        external_contract_address: None,
        decimals_local: 6,
        decimals_external: 6,
        is_native: false,
    }
}

fn ethereum_config(base_fee: u128, bps: u64) -> ChainConfig {
    ChainConfig {
        chain: ExternalChain::Ethereum,
        is_enabled: true,
        bridge_contract_address: "0xbridge".to_string(),
        supported_assets: vec![usdt_mapping()],
        min_transfer_amount: 1,
        max_transfer_amount: 1_000_000,
        base_fee,
        fee_percentage_bps: bps,
        required_confirmations: 12,
        estimated_time_seconds: 600,
    }
}

fn validator(owner: u64, weight: u32) -> ValidatorConfig {
    ValidatorConfig {
        address: Account::new(owner),
        public_key: vec![1, 2, 3],
        is_active: true,
        weight,
        registered_at: 0,
    }
}

fn bridge_with_validators() -> BridgeContract {
    let mut b = BridgeContract::new();
    b.configure_chain(ethereum_config(10, 30));
    b.add_validator(validator(101, 1)).unwrap();
    b.add_validator(validator(102, 1)).unwrap();
    b.add_validator(validator(103, 1)).unwrap();
    b
}

#[test]
fn test_external_chain_properties() {
    assert_eq!(ExternalChain::Ethereum.chain_id(), 1);
    assert_eq!(ExternalChain::Ethereum.name(), "Ethereum");
    assert_eq!(ExternalChain::Ethereum.required_confirmations(), 12);

    assert_eq!(ExternalChain::Bitcoin.required_confirmations(), 6);
    assert_eq!(ExternalChain::Solana.required_confirmations(), 32);
}

#[test]
fn test_transfer_status() {
    let status = TransferStatus::Pending;
    assert!(matches!(status, TransferStatus::Pending));
}

#[test]
fn chain_ids_and_names_of_every_chain() {
    assert_eq!(ExternalChain::Bitcoin.chain_id(), 0);
    assert_eq!(ExternalChain::Polygon.chain_id(), 137);
    assert_eq!(ExternalChain::Custom(777).chain_id(), 777);
    assert_eq!(ExternalChain::BSC.name(), "BNB Smart Chain");
    assert_eq!(ExternalChain::Custom(5).name(), "Custom Chain");
    assert_eq!(ExternalChain::Polygon.required_confirmations(), 256);
}

#[test]
fn inbound_deposit_waits_for_confirmations_then_credits_net() {
    let mut b = bridge_with_validators();
    let user = Account::new(1);
    let usdt = "USDT".to_string();
    let id = b
        .report_deposit(0, ExternalChain::Ethereum, "0xH".to_string(), "0xsrc".to_string(), user, usdt.clone(), 1000, 5)
        .unwrap();
    assert_eq!(id, 1);
    assert_eq!(b.state.transfers[0].status, TransferStatus::Confirming);
    assert_eq!(b.state.ledger.free_balance(user, &usdt), 0);

    b.update_confirmations(10, id, 12).unwrap();
    let t = &b.state.transfers[0];
    assert_eq!(t.status, TransferStatus::Completed);
    // fee = 10 + 1000 * 30 / 10000 = 13
    assert_eq!(t.fee, 13);
    assert_eq!(t.net_amount, 987);
    assert_eq!(b.state.ledger.free_balance(user, &usdt), 987);
    assert_eq!(b.state.ledger.collected_fees(&usdt), 13);

    let again = b.report_deposit(20, ExternalChain::Ethereum, "0xH".to_string(), "0xsrc".to_string(), user, usdt.clone(), 1000, 50);
    assert_eq!(again, Err(BridgeError::DuplicateDeposit));
}

#[test]
fn duplicate_deposit_changes_nothing() {
    let mut b = bridge_with_validators();
    let user = Account::new(1);
    let usdt = "USDT".to_string();
    b.report_deposit(0, ExternalChain::Ethereum, "0xA".to_string(), "s".to_string(), user, usdt.clone(), 500, 12).unwrap();
    let transfers = b.state.transfers.len();
    let free = b.state.ledger.free_balance(user, &usdt);
    let fees = b.state.ledger.collected_fees(&usdt);
    let r = b.report_deposit(1, ExternalChain::Ethereum, "0xA".to_string(), "s".to_string(), user, usdt.clone(), 900, 12);
    assert_eq!(r, Err(BridgeError::DuplicateDeposit));
    assert_eq!(b.state.transfers.len(), transfers);
    assert_eq!(b.state.ledger.free_balance(user, &usdt), free);
    assert_eq!(b.state.ledger.collected_fees(&usdt), fees);
    assert_eq!(b.state.next_transfer_id, 2);
}

#[test]
fn confirmed_deposit_completes_at_once() {
    let mut b = bridge_with_validators();
    let user = Account::new(4);
    let usdt = "USDT".to_string();
    b.report_deposit(0, ExternalChain::Ethereum, "0xB".to_string(), "s".to_string(), user, usdt.clone(), 2000, 12).unwrap();
    assert_eq!(b.state.transfers[0].status, TransferStatus::Completed);
    assert_eq!(b.state.transfers[0].direction, TransferDirection::Inbound);
    // fee = 10 + 2000 * 30 / 10000 = 16
    assert_eq!(b.state.ledger.free_balance(user, &usdt), 1984);
    assert_eq!(b.state.ledger.supply_of(&usdt), 2000);
}

#[test]
fn outbound_withdrawal_quorum_and_failure_refund() {
    let mut b = bridge_with_validators();
    let user = Account::new(1);
    let usdt = "USDT".to_string();
    b.report_deposit(0, ExternalChain::Ethereum, "0xC".to_string(), "s".to_string(), user, usdt.clone(), 1000, 12).unwrap();
    assert_eq!(b.state.ledger.free_balance(user, &usdt), 987);

    let id = b.initiate_withdrawal(user, 5, ExternalChain::Ethereum, "0xdest".to_string(), usdt.clone(), 500).unwrap();
    assert_eq!(b.state.transfers[1].status, TransferStatus::AwaitingApproval);
    assert_eq!(b.state.outbox.len(), 1);
    match &b.state.outbox[0] {
        Message::WithdrawalRequest { transfer_id, chain, recipient_address, asset, amount } => {
            assert_eq!(*transfer_id, id);
            assert_eq!(*chain, ExternalChain::Ethereum);
            assert_eq!(recipient_address, "0xdest");
            assert_eq!(asset, "USDT");
            assert_eq!(*amount, 489);
        },
        _ => panic!("expected a withdrawal request"),
    }
    // fee = 10 + 500 * 30 / 10000 = 11, net = 489
    assert_eq!(b.state.transfers[1].fee, 11);
    assert_eq!(b.state.transfers[1].net_amount, 489);
    assert_eq!(b.state.ledger.free_balance(user, &usdt), 487);
    assert_eq!(b.state.ledger.collected_fees(&usdt), 13 + 11);

    b.approve_transfer(Account::new(101), 6, id, vec![9]).unwrap();
    assert_eq!(b.state.transfers[1].status, TransferStatus::AwaitingApproval);
    b.approve_transfer(Account::new(102), 7, id, vec![9]).unwrap();
    // 2 of 3: required weight is 3 * 67 / 100 = 2
    assert_eq!(b.state.transfers[1].status, TransferStatus::Approved);
    assert_eq!(b.approve_transfer(Account::new(102), 8, id, vec![9]), Err(BridgeError::AlreadyApproved));

    b.execute_transfer(9, id).unwrap();
    assert_eq!(b.state.transfers[1].status, TransferStatus::Executing);

    b.complete_withdrawal(10, id, "0xout".to_string(), false).unwrap();
    assert_eq!(b.state.transfers[1].status, TransferStatus::Failed);
    assert_eq!(b.state.ledger.free_balance(user, &usdt), 487 + 489);
    assert_eq!(b.state.ledger.collected_fees(&usdt), 24);
}

#[test]
fn successful_withdrawal_records_destination() {
    let mut b = bridge_with_validators();
    let user = Account::new(1);
    let usdt = "USDT".to_string();
    b.report_deposit(0, ExternalChain::Ethereum, "0xD".to_string(), "s".to_string(), user, usdt.clone(), 1000, 12).unwrap();
    let id = b.initiate_withdrawal(user, 5, ExternalChain::Ethereum, "0xdest".to_string(), usdt.clone(), 100).unwrap();
    b.approve_transfer(Account::new(101), 6, id, vec![]).unwrap();
    b.approve_transfer(Account::new(103), 6, id, vec![]).unwrap();
    b.execute_transfer(7, id).unwrap();
    b.complete_withdrawal(8, id, "0xdone".to_string(), true).unwrap();
    let t = &b.state.transfers[1];
    assert_eq!(t.status, TransferStatus::Completed);
    assert_eq!(t.destination_tx_hash, Some("0xdone".to_string()));
    assert_eq!(t.completed_at, Some(8));
}

#[test]
fn fee_larger_than_amount_leaves_nothing() {
    let mut b = BridgeContract::new();
    b.configure_chain(ethereum_config(50, 0));
    let user = Account::new(1);
    let usdt = "USDT".to_string();
    b.report_deposit(0, ExternalChain::Ethereum, "0xE".to_string(), "s".to_string(), user, usdt.clone(), 20, 12).unwrap();
    let t = &b.state.transfers[0];
    assert_eq!(t.fee, 50);
    assert_eq!(t.net_amount, 0);
    assert_eq!(b.state.ledger.free_balance(user, &usdt), 0);
    assert_eq!(b.state.ledger.collected_fees(&usdt), 20);
}

#[test]
fn approval_weight_never_drops() {
    let mut b = BridgeContract::new();
    b.configure_chain(ethereum_config(0, 0));
    b.add_validator(validator(101, 5)).unwrap();
    b.add_validator(validator(102, 3)).unwrap();
    b.add_validator(validator(103, 2)).unwrap();
    let user = Account::new(1);
    let usdt = "USDT".to_string();
    b.report_deposit(0, ExternalChain::Ethereum, "0xF".to_string(), "s".to_string(), user, usdt.clone(), 100, 12).unwrap();
    let id = b.initiate_withdrawal(user, 1, ExternalChain::Ethereum, "0xdest".to_string(), usdt.clone(), 10).unwrap();
    // required = 10 * 67 / 100 = 6
    b.approve_transfer(Account::new(103), 2, id, vec![]).unwrap();
    assert_eq!(b.state.transfers[1].status, TransferStatus::AwaitingApproval);
    b.approve_transfer(Account::new(102), 3, id, vec![]).unwrap();
    assert_eq!(b.state.transfers[1].status, TransferStatus::AwaitingApproval);
    b.approve_transfer(Account::new(101), 4, id, vec![]).unwrap();
    assert_eq!(b.state.transfers[1].status, TransferStatus::Approved);
    assert_eq!(b.state.transfers[1].approvals.len(), 3);
}

#[test]
fn validator_errors() {
    let mut b = bridge_with_validators();
    let user = Account::new(1);
    let usdt = "USDT".to_string();
    b.report_deposit(0, ExternalChain::Ethereum, "0xG".to_string(), "s".to_string(), user, usdt.clone(), 1000, 12).unwrap();
    let id = b.initiate_withdrawal(user, 1, ExternalChain::Ethereum, "0xdest".to_string(), usdt.clone(), 100).unwrap();
    assert_eq!(
        b.approve_transfer(Account::new(999), 2, id, vec![]),
        Err(BridgeError::ValidatorNotFound { address: Account::new(999) })
    );
    b.add_validator(ValidatorConfig { is_active: false, ..validator(104, 1) }).unwrap();
    assert_eq!(
        b.approve_transfer(Account::new(104), 2, id, vec![]),
        Err(BridgeError::ValidatorInactive { address: Account::new(104) })
    );
    assert_eq!(b.state.total_validator_weight, 4);
    b.remove_validator(Account::new(104)).unwrap();
    assert_eq!(b.state.total_validator_weight, 3);
    assert_eq!(
        b.remove_validator(Account::new(104)),
        Err(BridgeError::ValidatorNotFound { address: Account::new(104) })
    );
    assert_eq!(b.approve_transfer(Account::new(101), 2, 99, vec![]), Err(BridgeError::TransferNotFound { transfer_id: 99 }));
}

#[test]
fn withdrawal_validation_errors() {
    let mut b = bridge_with_validators();
    let user = Account::new(1);
    let usdt = "USDT".to_string();
    assert_eq!(
        b.initiate_withdrawal(user, 0, ExternalChain::Solana, "x".to_string(), usdt.clone(), 10),
        Err(BridgeError::ChainNotConfigured { chain: ExternalChain::Solana })
    );
    assert_eq!(
        b.initiate_withdrawal(user, 0, ExternalChain::Ethereum, "x".to_string(), "DOGE".to_string(), 10),
        Err(BridgeError::AssetNotSupported { chain: ExternalChain::Ethereum })
    );
    assert_eq!(
        b.initiate_withdrawal(user, 0, ExternalChain::Ethereum, "x".to_string(), usdt.clone(), 0),
        Err(BridgeError::BelowMinimum { amount: 0, minimum: 1 })
    );
    assert_eq!(
        b.initiate_withdrawal(user, 0, ExternalChain::Ethereum, "x".to_string(), usdt.clone(), 2_000_000),
        Err(BridgeError::AboveMaximum { amount: 2_000_000, maximum: 1_000_000 })
    );
    assert_eq!(
        b.initiate_withdrawal(user, 0, ExternalChain::Ethereum, String::new(), usdt.clone(), 10),
        Err(BridgeError::InvalidAddress)
    );
    assert_eq!(
        b.initiate_withdrawal(user, 0, ExternalChain::Ethereum, "x".to_string(), usdt.clone(), 10),
        Err(BridgeError::InsufficientBalance { required: 10, available: 0 })
    );
    b.disable_chain(ExternalChain::Ethereum).unwrap();
    assert_eq!(
        b.initiate_withdrawal(user, 0, ExternalChain::Ethereum, "x".to_string(), usdt.clone(), 10),
        Err(BridgeError::ChainDisabled { chain: ExternalChain::Ethereum })
    );
    assert_eq!(b.disable_chain(ExternalChain::Bitcoin), Err(BridgeError::ChainNotConfigured { chain: ExternalChain::Bitcoin }));
}

#[test]
fn pause_blocks_operations_until_resume() {
    let mut b = bridge_with_validators();
    let user = Account::new(1);
    b.emergency_pause();
    assert_eq!(
        b.report_deposit(0, ExternalChain::Ethereum, "0xP".to_string(), "s".to_string(), user, "USDT".to_string(), 10, 12),
        Err(BridgeError::Paused)
    );
    b.resume();
    assert!(b.report_deposit(0, ExternalChain::Ethereum, "0xP".to_string(), "s".to_string(), user, "USDT".to_string(), 10, 12).is_ok());
}

#[test]
fn fees_update_applies_to_new_transfers() {
    let mut b = bridge_with_validators();
    b.update_fees(ExternalChain::Ethereum, Some(0), Some(100)).unwrap();
    let user = Account::new(1);
    let usdt = "USDT".to_string();
    b.report_deposit(0, ExternalChain::Ethereum, "0xU".to_string(), "s".to_string(), user, usdt.clone(), 1000, 12).unwrap();
    assert_eq!(b.state.transfers[0].fee, 10);
    assert_eq!(b.state.ledger.free_balance(user, &usdt), 990);
}

#[test]
fn expired_withdrawal_refunds_net_amount() {
    let mut b = bridge_with_validators();
    let user = Account::new(1);
    let usdt = "USDT".to_string();
    b.report_deposit(0, ExternalChain::Ethereum, "0xX".to_string(), "s".to_string(), user, usdt.clone(), 1000, 12).unwrap();
    let id = b.initiate_withdrawal(user, 0, ExternalChain::Ethereum, "0xdest".to_string(), usdt.clone(), 500).unwrap();
    let later = 86_400 * 1_000_000 + 1;
    assert_eq!(b.claim_refund(Account::new(2), later, id), Err(BridgeError::Unauthorized));
    assert_eq!(b.process_expired_transfers(later), Ok(1));
    assert_eq!(b.state.transfers[1].status, TransferStatus::Expired);
    b.claim_refund(user, later, id).unwrap();
    assert_eq!(b.state.transfers[1].status, TransferStatus::Refunded);
    assert_eq!(b.state.ledger.free_balance(user, &usdt), 487 + 489);
    assert_eq!(b.claim_refund(user, later, id), Err(BridgeError::AlreadyProcessed));
}

#[test]
fn bridge_operations_and_messages_dispatch() {
    let mut b = BridgeContract::new();
    let admin = Account::new(0);
    b.execute_operation(admin, 0, Operation::ConfigureChain { config: ethereum_config(0, 0) }).unwrap();
    b.execute_operation(admin, 0, Operation::AddValidator { config: validator(101, 1) }).unwrap();
    let user = Account::new(1);
    b.execute_message(
        1,
        Message::DepositNotification {
            chain: ExternalChain::Ethereum,
            tx_hash: "0xM".to_string(),
            recipient: user,
            asset: "USDT".to_string(),
            amount: 300,
            confirmations: 12,
        },
    );
    assert_eq!(b.state.ledger.free_balance(user, &"USDT".to_string()), 300);
    b.execute_operation(
        user,
        2,
        Operation::InitiateWithdrawal {
            destination_chain: ExternalChain::Ethereum,
            destination_address: "0xd".to_string(),
            asset: "USDT".to_string(),
            amount: 100,
        },
    )
    .unwrap();
    b.execute_message(3, Message::ValidatorSignature { transfer_id: 2, validator: Account::new(101), signature: vec![1], approved: true });
    assert_eq!(b.state.transfers[1].status, TransferStatus::Approved);
    b.execute_operation(admin, 4, Operation::EmergencyPause).unwrap();
    assert_eq!(b.execute_operation(admin, 4, Operation::ExecuteTransfer { transfer_id: 2 }), Err(BridgeError::Paused));
    b.execute_operation(admin, 4, Operation::Resume).unwrap();
    b.execute_operation(admin, 5, Operation::ExecuteTransfer { transfer_id: 2 }).unwrap();
    b.execute_operation(admin, 6, Operation::CompleteWithdrawal { transfer_id: 2, tx_hash: "0xz".to_string(), success: true }).unwrap();
    assert_eq!(b.state.transfers[1].status, TransferStatus::Completed);
    assert_eq!(b.state.ledger.supply_of(&"USDT".to_string()), 200);
}

#[test]
fn pause_stops_expiry_processing() {
    let mut b = bridge_with_validators();
    let user = Account::new(1);
    let usdt = "USDT".to_string();
    b.report_deposit(0, ExternalChain::Ethereum, "0xQ".to_string(), "s".to_string(), user, usdt.clone(), 1000, 1).unwrap();
    let later = 86_400 * 1_000_000 + 1;
    b.emergency_pause();
    assert_eq!(b.process_expired_transfers(later), Err(BridgeError::Paused));
    assert_eq!(b.execute_operation(Account::new(0), later, Operation::ProcessExpiredTransfers), Err(BridgeError::Paused));
    assert_eq!(b.state.transfers[0].status, TransferStatus::Confirming);
    b.resume();
    assert_eq!(b.process_expired_transfers(later), Ok(1));
    assert_eq!(b.state.transfers[0].status, TransferStatus::Expired);
}

#[test]
fn messages_record_deposits_and_approvals() {
    let mut b = bridge_with_validators();
    let user = Account::new(1);
    b.execute_message(
        0,
        Message::DepositNotification {
            chain: ExternalChain::Ethereum,
            tx_hash: "0xN".to_string(),
            recipient: user,
            asset: "USDT".to_string(),
            amount: 1000,
            confirmations: 3,
        },
    );
    assert_eq!(b.state.transfers.len(), 1);
    assert_eq!(b.state.transfers[0].status, TransferStatus::Confirming);
    assert_eq!(b.state.expiration_queue.len(), 1);
    b.update_confirmations(1, 1, 12).unwrap();
    let id = b.initiate_withdrawal(user, 2, ExternalChain::Ethereum, "0xd".to_string(), "USDT".to_string(), 100).unwrap();
    b.execute_message(3, Message::ValidatorSignature { transfer_id: id, validator: Account::new(101), signature: vec![7], approved: true });
    let ap = &b.state.transfers[1].approvals[0];
    assert_eq!(ap.validator, Account::new(101));
    assert!(ap.approved);
    assert_eq!(ap.timestamp, 3);
    assert_eq!(ap.signature, vec![7]);
    b.execute_message(4, Message::ValidatorSignature { transfer_id: id, validator: Account::new(102), signature: vec![8], approved: false });
    assert_eq!(b.state.transfers[1].approvals.len(), 1);
}

#[test]
fn pause_stops_configuration_too() {
    let mut b = BridgeContract::new();
    let admin = Account::new(0);
    b.execute_operation(admin, 0, Operation::EmergencyPause).unwrap();
    assert_eq!(
        b.execute_operation(admin, 0, Operation::ConfigureChain { config: ethereum_config(0, 0) }),
        Err(BridgeError::Paused)
    );
    assert_eq!(b.execute_operation(admin, 0, Operation::AddValidator { config: validator(101, 1) }), Err(BridgeError::Paused));
    assert_eq!(b.state.chain_configs.len(), 0);
    assert_eq!(b.state.validators.len(), 0);
    b.execute_operation(admin, 0, Operation::Resume).unwrap();
    b.execute_operation(admin, 0, Operation::ConfigureChain { config: ethereum_config(0, 0) }).unwrap();
    assert_eq!(b.state.chain_configs.len(), 1);
}
