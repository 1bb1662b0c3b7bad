use dex_engine::settlement::{SettlementContract, SettlementError};
use dex_engine::settlement_bridge::{BridgeConfig, BridgeDirection, BridgeTransferStatus};
use dex_engine::types::Account;

fn eth_config() -> BridgeConfig {
    BridgeConfig {
        chain_id: "ethereum".to_string(),
        chain_name: "Ethereum".to_string(),
        bridge_address: "0x1234...".to_string(),
        confirmation_blocks: 12,
        min_amount: 1000,
        max_amount: 1000000,
        fee_rate_bps: 30,
        is_active: true,
        supported_assets: vec!["ETH".to_string(), "USDT".to_string()],
    }
}

#[test]
fn test_bridge_config() {
    let config = BridgeConfig {
        chain_id: "ethereum".to_string(),
        chain_name: "Ethereum".to_string(),
        bridge_address: "0x1234...".to_string(),
        confirmation_blocks: 12,
        min_amount: 1000,
        max_amount: 1000000,
        fee_rate_bps: 30,
        is_active: true,
        supported_assets: vec!["ETH".to_string(), "USDT".to_string()],
    };

    assert!(config.is_active);
    assert_eq!(config.fee_rate_bps, 30);
    assert!(config.supported_assets.contains(&"ETH".to_string()));
}

#[test]
fn bridge_deposit_credits_amount_less_fee() {
    let mut s = SettlementContract::new();
    s.configure_bridge("ethereum".to_string(), eth_config());
    let user = Account::new(1);
    let eth = "ETH".to_string();
    let id = s.process_bridge_deposit(0, "ethereum".to_string(), "0xA".to_string(), user, eth.clone(), 10_000, 12).unwrap();
    assert_eq!(id, 1);
    assert_eq!(s.state.bridge_transfers[0].status, BridgeTransferStatus::Completed);
    assert_eq!(s.state.bridge_transfers[0].direction, BridgeDirection::Deposit);
    // fee = 10000 * 30 / 10000 = 30, collected
    assert_eq!(s.state.ledger.free_balance(user, &eth), 9_970);
    assert_eq!(s.state.ledger.collected_fees(&eth), 30);
    assert_eq!(s.state.ledger.supply_of(&eth), 10_000);
    assert_eq!(
        s.process_bridge_deposit(1, "ethereum".to_string(), "0xA".to_string(), user, eth.clone(), 10_000, 12),
        Err(SettlementError::DepositAlreadyProcessed)
    );
    let pending = s.process_bridge_deposit(1, "ethereum".to_string(), "0xB".to_string(), user, eth.clone(), 5_000, 3).unwrap();
    assert_eq!(s.state.bridge_transfers[(pending - 1) as usize].status, BridgeTransferStatus::Confirming);
    assert_eq!(s.state.ledger.free_balance(user, &eth), 9_970);
}

#[test]
fn bridge_deposit_errors() {
    let mut s = SettlementContract::new();
    let user = Account::new(1);
    let eth = "ETH".to_string();
    assert_eq!(
        s.process_bridge_deposit(0, "ethereum".to_string(), "0xA".to_string(), user, eth.clone(), 10_000, 12),
        Err(SettlementError::BridgeNotConfigured)
    );
    s.configure_bridge("ethereum".to_string(), eth_config());
    assert_eq!(
        s.process_bridge_deposit(0, "ethereum".to_string(), "0xA".to_string(), user, "BTC".to_string(), 10_000, 12),
        Err(SettlementError::AssetNotSupported)
    );
    assert_eq!(
        s.process_bridge_deposit(0, "ethereum".to_string(), "0xA".to_string(), user, eth.clone(), 10, 12),
        Err(SettlementError::BelowMinimum { amount: 10, minimum: 1000 })
    );
    assert_eq!(
        s.process_bridge_deposit(0, "ethereum".to_string(), "0xA".to_string(), user, eth.clone(), 2_000_000, 12),
        Err(SettlementError::AboveMaximum { amount: 2_000_000, maximum: 1_000_000 })
    );
    s.disable_bridge("ethereum".to_string()).unwrap();
    assert_eq!(
        s.process_bridge_deposit(0, "ethereum".to_string(), "0xA".to_string(), user, eth.clone(), 10_000, 12),
        Err(SettlementError::BridgeDisabled)
    );
    assert_eq!(s.disable_bridge("solana".to_string()), Err(SettlementError::BridgeNotConfigured));
    assert_eq!(s.state.bridge_transfers.len(), 0);
}

#[test]
fn bridge_withdrawal_refunds_on_failure_only_once() {
    let mut s = SettlementContract::new();
    s.configure_bridge("ethereum".to_string(), eth_config());
    let user = Account::new(1);
    let usdt = "USDT".to_string();
    s.deposit(user, usdt.clone(), 50_000).unwrap();
    assert_eq!(
        s.initiate_bridge_withdrawal(user, 0, "ethereum".to_string(), usdt.clone(), 60_000, "0xd".to_string()),
        Err(SettlementError::InsufficientBalance { required: 60_000, available: 50_000 })
    );
    let id = s.initiate_bridge_withdrawal(user, 0, "ethereum".to_string(), usdt.clone(), 20_000, "0xd".to_string()).unwrap();
    assert_eq!(id, 1);
    assert_eq!(s.state.bridge_transfers.len(), 1);
    assert_eq!(s.state.next_transfer_id, 2);
    assert_eq!(s.state.ledger.free_balance(user, &usdt), 30_000);
    assert_eq!(s.state.bridge_transfers[0].status, BridgeTransferStatus::Pending);
    s.complete_bridge_withdrawal(1, id, "0xfail".to_string(), false).unwrap();
    assert_eq!(s.state.bridge_transfers[0].status, BridgeTransferStatus::Failed);
    assert_eq!(s.state.ledger.free_balance(user, &usdt), 50_000);
    assert_eq!(s.complete_bridge_withdrawal(2, id, "0xfail".to_string(), false), Err(SettlementError::TransferNotPending));
    assert_eq!(s.state.ledger.free_balance(user, &usdt), 50_000);
    assert_eq!(s.complete_bridge_withdrawal(2, 9, "0x".to_string(), true), Err(SettlementError::TransferNotFound { transfer_id: 9 }));

    let id2 = s.initiate_bridge_withdrawal(user, 3, "ethereum".to_string(), usdt.clone(), 10_000, "0xd".to_string()).unwrap();
    s.complete_bridge_withdrawal(4, id2, "0xok".to_string(), true).unwrap();
    assert_eq!(s.state.bridge_transfers[1].status, BridgeTransferStatus::Completed);
    assert_eq!(s.state.bridge_transfers[1].tx_hash, Some("0xok".to_string()));
    assert_eq!(s.state.ledger.supply_of(&usdt), 40_000);
}
