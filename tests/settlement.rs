use dex_engine::settlement::{
    BridgeEventType, EscrowState, Message, Operation, SettlementContract, SettlementError,
    SettlementStatus,
};
use dex_engine::types::Account;

const HOUR: u64 = 3600;
const MICROS: u64 = 1_000_000;

fn funded() -> (SettlementContract, Account, Account) {
    let mut s = SettlementContract::new();
    let m = Account::new(1);
    let t = Account::new(2);
    s.deposit(m, "X".to_string(), 100).unwrap();
    s.deposit(t, "Y".to_string(), 100).unwrap();
    (s, m, t)
}

#[test]
fn test_escrow_state_default() {
    let escrow = EscrowState::default();
    assert!(!escrow.is_escrowed);
    assert_eq!(escrow.amount, 0);
}

#[test]
fn test_settlement_status_progression() {
    assert!(matches!(SettlementStatus::Pending, SettlementStatus::Pending));
    assert!(matches!(SettlementStatus::MakerEscrowed, SettlementStatus::MakerEscrowed));
    assert!(matches!(SettlementStatus::FullyEscrowed, SettlementStatus::FullyEscrowed));
    assert!(matches!(SettlementStatus::Completed, SettlementStatus::Completed));
}

#[test]
fn settlement_happy_path_executes_on_second_escrow() {
    let (mut s, m, t) = funded();
    let x = "X".to_string();
    let y = "Y".to_string();
    let sid = s.initiate_settlement(0, 7, m, t, x.clone(), y.clone(), 10, 20, HOUR);
    assert_eq!(sid, 1);
    assert_eq!(s.state.settlements[0].expires_at, HOUR * MICROS);

    s.confirm_escrow(m, 1, sid).unwrap();
    assert_eq!(s.state.settlements[0].status, SettlementStatus::MakerEscrowed);
    assert_eq!(s.state.ledger.escrowed_balance(sid, m, &x), 10);
    assert_eq!(s.state.ledger.free_balance(m, &x), 90);

    s.confirm_escrow(t, 2, sid).unwrap();
    assert_eq!(s.state.settlements[0].status, SettlementStatus::Completed);
    assert_eq!(s.state.settlements[0].completed_at, Some(2));
    assert_eq!(s.state.ledger.free_balance(m, &y), 20);
    assert_eq!(s.state.ledger.free_balance(t, &x), 10);
    assert_eq!(s.state.ledger.free_balance(t, &y), 80);
    assert_eq!(s.state.ledger.escrowed_balance(sid, m, &x), 0);
    assert_eq!(s.state.ledger.escrowed_balance(sid, t, &y), 0);
    assert_eq!(s.state.stats.completed_settlements, 1);
}

#[test]
fn settlement_expiry_and_refund() {
    let (mut s, m, t) = funded();
    let x = "X".to_string();
    let sid = s.initiate_settlement(0, 7, m, t, x.clone(), "Y".to_string(), 10, 20, HOUR);
    s.confirm_escrow(m, 1, sid).unwrap();
    assert_eq!(s.state.ledger.free_balance(m, &x), 90);
    let later = HOUR * MICROS + 1;
    assert_eq!(
        s.confirm_escrow(t, later, sid),
        Err(SettlementError::SettlementExpired { expired_at: HOUR * MICROS })
    );
    assert_eq!(
        s.claim_refund(t, later, sid),
        Err(SettlementError::InsufficientBalance { required: 0, available: 0 })
    );
    s.claim_refund(m, later, sid).unwrap();
    assert_eq!(s.state.ledger.free_balance(m, &x), 100);
    assert_eq!(s.state.ledger.escrowed_balance(sid, m, &x), 0);
    assert_eq!(s.state.settlements[0].status, SettlementStatus::Refunded);
}

#[test]
fn execute_twice_completes_once() {
    let (mut s, m, t) = funded();
    let sid = s.initiate_settlement(0, 7, m, t, "X".to_string(), "Y".to_string(), 10, 20, HOUR);
    s.confirm_escrow(m, 1, sid).unwrap();
    s.confirm_escrow(t, 2, sid).unwrap();
    let first = s.execute_settlement(3, sid);
    assert_eq!(
        first,
        Err(SettlementError::InvalidStatus { expected: SettlementStatus::FullyEscrowed, actual: SettlementStatus::Completed })
    );
    let second = s.execute_settlement(4, sid);
    assert_eq!(second, first);
    assert_eq!(s.state.ledger.free_balance(t, &"X".to_string()), 10);
    assert_eq!(s.state.stats.completed_settlements, 1);
}

#[test]
fn cancel_returns_escrow() {
    let (mut s, m, t) = funded();
    let x = "X".to_string();
    let sid = s.initiate_settlement(0, 1, m, t, x.clone(), "Y".to_string(), 30, 20, HOUR);
    s.confirm_escrow(m, 1, sid).unwrap();
    assert_eq!(s.cancel_settlement(Account::new(9), sid, "no".to_string()), Err(SettlementError::Unauthorized));
    s.cancel_settlement(t, sid, "changed my mind".to_string()).unwrap();
    assert_eq!(s.state.settlements[0].status, SettlementStatus::Cancelled);
    assert_eq!(s.state.settlements[0].failure_reason, Some("changed my mind".to_string()));
    assert_eq!(s.state.ledger.free_balance(m, &x), 100);
    assert_eq!(s.state.ledger.escrowed_balance(sid, m, &x), 0);
    assert_eq!(
        s.cancel_settlement(m, sid, "again".to_string()),
        Err(SettlementError::CannotCancel { status: SettlementStatus::Cancelled })
    );
}

#[test]
fn settlement_errors() {
    let (mut s, m, t) = funded();
    assert_eq!(s.confirm_escrow(m, 0, 5), Err(SettlementError::SettlementNotFound { settlement_id: 5 }));
    let sid = s.initiate_settlement(0, 1, m, t, "X".to_string(), "Y".to_string(), 500, 20, HOUR);
    assert_eq!(s.confirm_escrow(Account::new(3), 0, sid), Err(SettlementError::Unauthorized));
    assert_eq!(
        s.confirm_escrow(m, 0, sid),
        Err(SettlementError::InsufficientBalance { required: 500, available: 100 })
    );
    s.confirm_escrow(t, 0, sid).unwrap();
    assert_eq!(s.confirm_escrow(t, 0, sid), Err(SettlementError::AlreadyEscrowed));
    assert_eq!(
        s.claim_refund(t, 0, sid),
        Err(SettlementError::CannotCancel { status: SettlementStatus::TakerEscrowed })
    );
    assert_eq!(
        s.withdraw(m, "X".to_string(), 101),
        Err(SettlementError::InsufficientBalance { required: 101, available: 100 })
    );
    s.withdraw(m, "X".to_string(), 40).unwrap();
    assert_eq!(s.state.ledger.free_balance(m, &"X".to_string()), 60);
}

#[test]
fn expired_settlements_are_processed_in_batches() {
    let (mut s, m, t) = funded();
    let x = "X".to_string();
    for i in 0..12u64 {
        s.initiate_settlement(0, i, m, t, x.clone(), "Y".to_string(), 1, 1, 1);
    }
    s.confirm_escrow(m, 0, 1).unwrap();
    assert_eq!(s.state.ledger.free_balance(m, &x), 99);
    let later = 2 * MICROS;
    assert_eq!(s.process_expired_settlements(later), 10);
    assert_eq!(s.state.settlements[0].status, SettlementStatus::Expired);
    assert_eq!(s.state.ledger.free_balance(m, &x), 100);
    assert_eq!(s.state.ledger.escrowed_balance(1, m, &x), 0);
    assert_eq!(s.state.settlements[11].status, SettlementStatus::Pending);
    assert_eq!(s.process_expired_settlements(later), 2);
    assert_eq!(s.state.settlements[11].status, SettlementStatus::Expired);
    assert_eq!(s.process_expired_settlements(later), 0);
}

#[test]
fn deposits_keep_supply_equal_to_inflows() {
    let (mut s, m, t) = funded();
    let sid = s.initiate_settlement(0, 1, m, t, "X".to_string(), "Y".to_string(), 10, 20, HOUR);
    s.confirm_escrow(m, 0, sid).unwrap();
    assert_eq!(s.state.ledger.supply_of(&"X".to_string()), 100);
    s.confirm_escrow(t, 0, sid).unwrap();
    assert_eq!(s.state.ledger.supply_of(&"X".to_string()), 100);
    assert_eq!(s.state.ledger.supply_of(&"Y".to_string()), 100);
    s.withdraw(t, "X".to_string(), 10).unwrap();
    assert_eq!(s.state.ledger.supply_of(&"X".to_string()), 90);
}

#[test]
fn settlement_operations_and_messages_dispatch() {
    let mut s = SettlementContract::new();
    let m = Account::new(1);
    let t = Account::new(2);
    s.execute_operation(m, 0, Operation::Deposit { asset: "X".to_string(), amount: 10 }).unwrap();
    s.execute_operation(t, 0, Operation::Deposit { asset: "Y".to_string(), amount: 20 }).unwrap();
    s.execute_message(
        0,
        Message::SettlementRequest {
            trade_id: 3,
            maker: m,
            taker: t,
            maker_asset: "X".to_string(),
            taker_asset: "Y".to_string(),
            maker_amount: 10,
            taker_amount: 20,
            timeout_seconds: 60,
        },
    );
    assert_eq!(s.state.settlements.len(), 1);
    assert_eq!(s.state.settlements[0].trade_id, 3);
    s.execute_message(0, Message::BridgeEvent { chain_id: "eth".to_string(), event_type: BridgeEventType::DepositDetected, transfer_id: 1, data: vec![] });
    assert_eq!(s.state.settlements.len(), 1);
    s.execute_operation(m, 1, Operation::ConfirmEscrow { settlement_id: 1 }).unwrap();
    s.execute_operation(t, 2, Operation::ConfirmEscrow { settlement_id: 1 }).unwrap();
    assert_eq!(s.state.settlements[0].status, SettlementStatus::Completed);
    assert_eq!(
        s.execute_operation(t, 3, Operation::ExecuteSettlement { settlement_id: 1 }),
        Err(SettlementError::InvalidStatus { expected: SettlementStatus::FullyEscrowed, actual: SettlementStatus::Completed })
    );
    s.execute_operation(m, 4, Operation::Withdraw { asset: "Y".to_string(), amount: 20 }).unwrap();
    assert_eq!(s.state.ledger.supply_of(&"Y".to_string()), 0);
}

#[test]
fn outsider_is_unauthorized_even_when_settled() {
    let (mut s, m, t) = funded();
    let sid = s.initiate_settlement(0, 1, m, t, "X".to_string(), "Y".to_string(), 10, 20, HOUR);
    s.confirm_escrow(m, 0, sid).unwrap();
    s.confirm_escrow(t, 0, sid).unwrap();
    assert_eq!(s.confirm_escrow(Account::new(9), 1, sid), Err(SettlementError::Unauthorized));
    assert_eq!(
        s.confirm_escrow(m, 1, sid),
        Err(SettlementError::InvalidStatus { expected: SettlementStatus::Pending, actual: SettlementStatus::Completed })
    );
}

#[test]
fn expired_claim_returns_only_the_callers_escrow() {
    let (mut s, m, t) = funded();
    let x = "X".to_string();
    let sid = s.initiate_settlement(0, 1, m, t, x.clone(), "Y".to_string(), 10, 20, HOUR);
    s.confirm_escrow(m, 0, sid).unwrap();
    let later = HOUR * MICROS + 5;
    s.claim_refund(m, later, sid).unwrap();
    assert_eq!(s.state.ledger.free_balance(m, &x), 100);
    assert_eq!(s.state.ledger.free_balance(t, &x), 0);
    assert_eq!(s.state.ledger.free_balance(t, &"Y".to_string()), 100);
}
