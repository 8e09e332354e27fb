use transaction_processor::numeric::{CurrencyAmount, CurrencyError};
use transaction_processor::{
    ReportEntry, Transaction, TransactionError, TransactionProcessor, TransactionType,
};

fn amount(text: &str) -> CurrencyAmount {
    CurrencyAmount::from_str(text).unwrap()
}

#[test]
fn test_deposit_withdraw() {
    let mut tp = TransactionProcessor::new();

    assert_eq!(tp.generate_report().len(), 0);

    // Try withdrawing some money, should fail
    assert_eq!(
        Err(TransactionError::NotEnoughFunds),
        tp.transact(&Transaction::new(
            1,
            2,
            TransactionType::Withdrawal { amount: amount("100") }
        ))
    );

    // Account should exist, but contain no money
    assert_eq!(
        vec![ReportEntry {
            client: 1,
            available: CurrencyAmount::zero(),
            held: CurrencyAmount::zero(),
            total: CurrencyAmount::zero(),
            locked: false
        }],
        tp.generate_report_as_vec()
    );

    let fifty = amount("50");

    // Deposit 50
    tp.transact(&Transaction::new(1, 2, TransactionType::Deposit { amount: fifty }))
        .unwrap();

    assert_eq!(
        vec![ReportEntry {
            client: 1,
            available: fifty,
            held: CurrencyAmount::zero(),
            total: fifty,
            locked: false
        }],
        tp.generate_report_as_vec()
    );

    // Try (and fail) to withdraw 100, reusing the recorded id 2: the
    // id-reuse check comes before the balance arithmetic
    assert_eq!(
        Err(TransactionError::TransactionAlreadyExists(2)),
        tp.transact(&Transaction::new(
            1,
            2,
            TransactionType::Withdrawal { amount: amount("100") }
        ))
    );

    // Account is unchanged
    assert_eq!(
        vec![ReportEntry {
            client: 1,
            available: fifty,
            held: CurrencyAmount::zero(),
            total: fifty,
            locked: false
        }],
        tp.generate_report_as_vec()
    );

    // Withdraw all (50)
    tp.transact(&Transaction::new(1, 3, TransactionType::Withdrawal { amount: fifty }))
        .unwrap();

    assert_eq!(
        vec![ReportEntry {
            client: 1,
            available: CurrencyAmount::zero(),
            held: CurrencyAmount::zero(),
            total: CurrencyAmount::zero(),
            locked: false
        }],
        tp.generate_report_as_vec()
    );
}

fn single_entry(tp: &TransactionProcessor) -> ReportEntry {
    let report = tp.generate_report_as_vec();
    assert_eq!(1, report.len());
    report[0].clone()
}

#[test]
fn test_scenario_insufficient_funds() {
    let mut tp = TransactionProcessor::new();
    tp.transact(&Transaction::new(1, 1, TransactionType::Deposit { amount: amount("50") }))
        .unwrap();
    assert_eq!(
        Err(TransactionError::NotEnoughFunds),
        tp.transact(&Transaction::new(
            1,
            2,
            TransactionType::Withdrawal { amount: amount("100") }
        ))
    );
    assert_eq!(
        ReportEntry {
            client: 1,
            available: amount("50"),
            held: amount("0"),
            total: amount("50"),
            locked: false
        },
        single_entry(&tp)
    );
}

#[test]
fn test_scenario_dispute_resolve() {
    let mut tp = TransactionProcessor::new();
    tp.transact(&Transaction::new(1, 1, TransactionType::Deposit { amount: amount("10") }))
        .unwrap();
    tp.transact(&Transaction::new(1, 1, TransactionType::Dispute)).unwrap();
    let e = single_entry(&tp);
    assert_eq!(amount("0"), e.available);
    assert_eq!(amount("10"), e.held);
    tp.transact(&Transaction::new(1, 1, TransactionType::Resolve)).unwrap();
    let e = single_entry(&tp);
    assert_eq!(amount("10"), e.available);
    assert_eq!(amount("0"), e.held);
    assert!(!e.locked);
}

#[test]
fn test_scenario_chargeback_locks() {
    let mut tp = TransactionProcessor::new();
    tp.transact(&Transaction::new(1, 1, TransactionType::Deposit { amount: amount("10") }))
        .unwrap();
    tp.transact(&Transaction::new(1, 1, TransactionType::Dispute)).unwrap();
    tp.transact(&Transaction::new(1, 1, TransactionType::Chargeback)).unwrap();
    let e = single_entry(&tp);
    assert_eq!(amount("0"), e.available);
    assert_eq!(amount("0"), e.held);
    assert!(e.locked);
    assert_eq!(
        Err(TransactionError::AccountIsLocked),
        tp.transact(&Transaction::new(1, 2, TransactionType::Deposit { amount: amount("5") }))
    );
}

#[test]
fn test_scenario_overflow_leaves_account_unchanged() {
    let near_limit = amount("79228162514264337593543950335");
    let mut tp = TransactionProcessor::new();
    tp.transact(&Transaction::new(1, 1, TransactionType::Deposit { amount: near_limit }))
        .unwrap();
    assert_eq!(
        Err(TransactionError::CurrencyError(CurrencyError::OutOfBounds)),
        tp.transact(&Transaction::new(1, 2, TransactionType::Deposit { amount: near_limit }))
    );
    let e = single_entry(&tp);
    assert_eq!(near_limit, e.available);
}

#[test]
fn test_dispute_of_unrecorded_tx_fails() {
    let mut tp = TransactionProcessor::new();
    tp.transact(&Transaction::new(1, 1, TransactionType::Deposit { amount: amount("10") }))
        .unwrap();
    assert_eq!(
        Err(TransactionError::TransactionDoesNotExist(9)),
        tp.transact(&Transaction::new(1, 9, TransactionType::Dispute))
    );
    let e = single_entry(&tp);
    assert_eq!(amount("10"), e.available);
    assert_eq!(amount("0"), e.held);
    assert!(!e.locked);
}

#[test]
fn test_chargeback_bars_redispute() {
    let mut tp = TransactionProcessor::new();
    tp.transact(&Transaction::new(1, 1, TransactionType::Deposit { amount: amount("10") }))
        .unwrap();
    tp.transact(&Transaction::new(1, 1, TransactionType::Dispute)).unwrap();
    tp.transact(&Transaction::new(1, 1, TransactionType::Chargeback)).unwrap();
    assert_eq!(
        Err(TransactionError::TransactionDoesNotExist(1)),
        tp.transact(&Transaction::new(1, 1, TransactionType::Dispute))
    );
}

#[test]
fn test_deposit_then_withdraw_restores_balances() {
    let mut tp = TransactionProcessor::new();
    tp.transact(&Transaction::new(1, 1, TransactionType::Deposit { amount: amount("7.25") }))
        .unwrap();
    let before = single_entry(&tp);
    tp.transact(&Transaction::new(1, 2, TransactionType::Deposit { amount: amount("3.5") }))
        .unwrap();
    tp.transact(&Transaction::new(1, 3, TransactionType::Withdrawal { amount: amount("3.5") }))
        .unwrap();
    let after = single_entry(&tp);
    assert_eq!(before.available, after.available);
    assert_eq!(before.held, after.held);
    assert!(!after.locked);
}

#[test]
fn test_duplicate_transaction_id_rejected() {
    let mut tp = TransactionProcessor::new();
    tp.transact(&Transaction::new(1, 1, TransactionType::Deposit { amount: amount("10") }))
        .unwrap();
    assert_eq!(
        Err(TransactionError::TransactionAlreadyExists(1)),
        tp.transact(&Transaction::new(1, 1, TransactionType::Deposit { amount: amount("4") }))
    );
}

#[test]
fn test_dispute_errors() {
    let mut tp = TransactionProcessor::new();
    tp.transact(&Transaction::new(1, 1, TransactionType::Deposit { amount: amount("10") }))
        .unwrap();
    assert_eq!(
        Err(TransactionError::DisputeDoesNotExist(1)),
        tp.transact(&Transaction::new(1, 1, TransactionType::Resolve))
    );
    tp.transact(&Transaction::new(1, 1, TransactionType::Dispute)).unwrap();
    assert_eq!(
        Err(TransactionError::DisputeAlreadyExists(1)),
        tp.transact(&Transaction::new(1, 1, TransactionType::Dispute))
    );
}

#[test]
fn test_dispute_allowed_on_locked_account() {
    // A locked account still accepts dispute traffic: only deposits and
    // withdrawals check the lock.
    let mut tp = TransactionProcessor::new();
    tp.transact(&Transaction::new(1, 1, TransactionType::Deposit { amount: amount("10") }))
        .unwrap();
    tp.transact(&Transaction::new(1, 2, TransactionType::Deposit { amount: amount("4") }))
        .unwrap();
    tp.transact(&Transaction::new(1, 2, TransactionType::Dispute)).unwrap();
    tp.transact(&Transaction::new(1, 2, TransactionType::Chargeback)).unwrap();
    let e = single_entry(&tp);
    assert!(e.locked);
    tp.transact(&Transaction::new(1, 1, TransactionType::Dispute)).unwrap();
    tp.transact(&Transaction::new(1, 1, TransactionType::Resolve)).unwrap();
    let e = single_entry(&tp);
    assert_eq!(amount("10"), e.available);
}

#[test]
fn test_report_sorted_by_client() {
    let mut tp = TransactionProcessor::new();
    for client in [7u16, 2, 9, 4] {
        tp.transact(&Transaction::new(
            client,
            client as u32,
            TransactionType::Deposit { amount: amount("1") },
        ))
        .unwrap();
    }
    let clients: Vec<u16> = tp.generate_report().iter().map(|e| e.client).collect();
    assert_eq!(vec![2u16, 4, 7, 9], clients);
}
