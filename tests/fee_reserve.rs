use ledger_engine::entity_type::EntityType;
use ledger_engine::fee_reserve::{CostingReason, FeeReserveError, RoyaltyReceiver, SystemLoanFeeReserve};
use ledger_engine::types::{radix_token, Decimal, FungibleResource, NodeId};

const ATTOS: i128 = 1_000_000_000_000_000_000;

fn test_vault_id() -> NodeId {
    NodeId::new(EntityType::InternalFungibleVault, 0, 0)
}

fn faucet_package() -> NodeId {
    NodeId::new(EntityType::GlobalPackage, 0, 7)
}

fn xrd(units: i64) -> FungibleResource {
    FungibleResource::new_fungible(radix_token(), 18, Decimal::from_units(units))
}

fn dec(units: i64) -> Decimal {
    Decimal::from_units(units)
}

#[test]
fn test_consume_and_repay() {
    let mut fee_reserve = SystemLoanFeeReserve::new(1 * ATTOS as u128, 2, 100, 5, false);
    fee_reserve
        .consume_multiplied_execution(2, 1, CostingReason::Invoke)
        .unwrap();
    fee_reserve.lock_fee(test_vault_id(), xrd(3), false).unwrap();
    fee_reserve.repay_all().unwrap();
    let summary = fee_reserve.finalize();
    assert_eq!(summary.loan_fully_repaid(), true);
    assert_eq!(summary.total_cost_units_consumed, 2);
    assert_eq!(
        summary.total_execution_cost_xrd,
        Decimal::from_attos(2 * ATTOS + 40_000_000_000_000_000)
    );
    assert_eq!(summary.total_royalty_cost_xrd, dec(0));
    assert_eq!(summary.bad_debt_xrd, dec(0));
}

#[test]
fn test_out_of_cost_unit() {
    let mut fee_reserve = SystemLoanFeeReserve::new(1 * ATTOS as u128, 2, 100, 5, false);
    assert_eq!(
        Err(FeeReserveError::InsufficientBalance),
        fee_reserve.consume_multiplied_execution(6, 1, CostingReason::Invoke)
    );
    let summary = fee_reserve.finalize();
    assert_eq!(summary.loan_fully_repaid(), true);
    assert_eq!(summary.total_cost_units_consumed, 0);
    assert_eq!(summary.total_execution_cost_xrd, dec(0));
    assert_eq!(summary.total_royalty_cost_xrd, dec(0));
    assert_eq!(summary.bad_debt_xrd, dec(0));
}

#[test]
fn test_lock_fee() {
    let mut fee_reserve = SystemLoanFeeReserve::new(1 * ATTOS as u128, 2, 100, 500, false);
    fee_reserve.lock_fee(test_vault_id(), xrd(100), false).unwrap();
    let summary = fee_reserve.finalize();
    assert_eq!(summary.loan_fully_repaid(), true);
    assert_eq!(summary.total_cost_units_consumed, 0);
    assert_eq!(summary.total_execution_cost_xrd, dec(0));
    assert_eq!(summary.total_royalty_cost_xrd, dec(0));
    assert_eq!(summary.bad_debt_xrd, dec(0));
}

#[test]
fn test_xrd_cost_unit_conversion() {
    let mut fee_reserve = SystemLoanFeeReserve::new(5 * ATTOS as u128, 0, 100, 500, false);
    fee_reserve.lock_fee(test_vault_id(), xrd(100), false).unwrap();
    let summary = fee_reserve.finalize();
    assert_eq!(summary.loan_fully_repaid(), true);
    assert_eq!(summary.total_cost_units_consumed, 0);
    assert_eq!(summary.total_execution_cost_xrd, dec(0));
    assert_eq!(summary.total_royalty_cost_xrd, dec(0));
    assert_eq!(summary.bad_debt_xrd, dec(0));
    assert_eq!(summary.vault_locks, vec![(test_vault_id(), xrd(100), false)],);
}

#[test]
fn test_bad_debt() {
    let mut fee_reserve = SystemLoanFeeReserve::new(5 * ATTOS as u128, 1, 100, 50, false);
    fee_reserve
        .consume_multiplied_execution(2, 1, CostingReason::Invoke)
        .unwrap();
    let summary = fee_reserve.finalize();
    assert_eq!(summary.loan_fully_repaid(), false);
    assert_eq!(summary.total_cost_units_consumed, 2);
    assert_eq!(
        summary.total_execution_cost_xrd,
        Decimal::from_attos(10 * ATTOS + ATTOS / 10)
    );
    assert_eq!(summary.total_royalty_cost_xrd, dec(0));
    assert_eq!(summary.bad_debt_xrd, Decimal::from_attos(10 * ATTOS + ATTOS / 10));
    assert_eq!(summary.vault_locks, vec![],);
}

#[test]
fn test_royalty_execution_mix() {
    let mut fee_reserve = SystemLoanFeeReserve::new(5 * ATTOS as u128, 1, 100, 50, false);
    fee_reserve
        .consume_multiplied_execution(2, 1, CostingReason::Invoke)
        .unwrap();
    fee_reserve
        .consume_royalty(RoyaltyReceiver::Package(faucet_package(), test_vault_id()), 2)
        .unwrap();
    fee_reserve.lock_fee(test_vault_id(), xrd(100), false).unwrap();
    fee_reserve.repay_all().unwrap();
    let summary = fee_reserve.finalize();
    assert_eq!(summary.loan_fully_repaid(), true);
    assert_eq!(summary.total_cost_units_consumed, 4);
    assert_eq!(
        summary.total_execution_cost_xrd,
        Decimal::from_attos(10 * ATTOS + ATTOS / 10)
    );
    assert_eq!(summary.total_royalty_cost_xrd, dec(10));
    assert_eq!(summary.bad_debt_xrd, dec(0));
    assert_eq!(summary.vault_locks, vec![(test_vault_id(), xrd(100), false)],);
}

#[test]
fn lock_fee_rejects_other_resources() {
    let mut fee_reserve = SystemLoanFeeReserve::new(ATTOS as u128, 0, 100, 10, false);
    let other = NodeId::new(EntityType::GlobalFungibleResource, 1, 1);
    let fee = FungibleResource::new_fungible(other, 18, dec(5));
    assert_eq!(fee_reserve.lock_fee(test_vault_id(), fee, false), Err(FeeReserveError::NotXrd));
}

#[test]
fn lock_fee_hands_back_an_empty_resource() {
    let mut fee_reserve = SystemLoanFeeReserve::new(ATTOS as u128, 0, 100, 10, false);
    let rest = fee_reserve.lock_fee(test_vault_id(), xrd(7), true).unwrap();
    assert_eq!(rest.amount(), dec(0));
    assert_eq!(fee_reserve.remaining_xrd_balance, 0);
}

#[test]
fn limit_exceeded_leaves_reserve_unchanged() {
    let mut fee_reserve = SystemLoanFeeReserve::new(ATTOS as u128, 0, 10, 100, false);
    assert_eq!(
        fee_reserve.consume_execution(11, CostingReason::RunWasm),
        Err(FeeReserveError::LimitExceeded)
    );
    assert_eq!(fee_reserve.total_cost_units_consumed, 0);
    assert_eq!(fee_reserve.remaining_loan_balance, 100);
}

#[test]
fn multiplied_execution_overflow() {
    let mut fee_reserve = SystemLoanFeeReserve::new(ATTOS as u128, 0, 10, 100, false);
    assert_eq!(
        fee_reserve.consume_multiplied_execution(u32::MAX, 2, CostingReason::RunWasm),
        Err(FeeReserveError::Overflow)
    );
}

#[test]
fn loan_repayment_failure_and_abort() {
    let mut fee_reserve = SystemLoanFeeReserve::new(ATTOS as u128, 0, 100, 10, false);
    fee_reserve.consume_execution(3, CostingReason::Invoke).unwrap();
    assert_eq!(fee_reserve.repay_all(), Err(FeeReserveError::LoanRepaymentFailed));

    let mut aborting = SystemLoanFeeReserve::new(ATTOS as u128, 0, 100, 10, true);
    aborting.lock_fee(test_vault_id(), xrd(10), false).unwrap();
    aborting.consume_execution(3, CostingReason::Invoke).unwrap();
    assert!(matches!(aborting.repay_all(), Err(FeeReserveError::Abort(_))));
    assert_eq!(aborting.remaining_xrd_balance, 7 * ATTOS as u128);
}

#[test]
fn deferred_costs_are_charged_on_repayment() {
    let mut fee_reserve = SystemLoanFeeReserve::new(ATTOS as u128, 0, 100, 10, false);
    fee_reserve.consume_deferred(2, 3, CostingReason::TxPayloadCost).unwrap();
    assert_eq!(fee_reserve.execution_deferred_total, 6);
    fee_reserve.lock_fee(test_vault_id(), xrd(10), false).unwrap();
    fee_reserve.repay_all().unwrap();
    let summary = fee_reserve.finalize();
    assert_eq!(summary.total_cost_units_consumed, 6);
    assert_eq!(summary.execution_cost_unit_breakdown[1], 6);
    assert_eq!(summary.total_execution_cost_xrd, dec(6));
    assert_eq!(summary.total_vault_locks_xrd(), Some(dec(10)));
}

#[test]
fn abort_reason_is_reported() {
    use_abortion();
}

fn use_abortion() {
    assert_eq!(FeeReserveError::Overflow.abortion(), None);
    let mut r = SystemLoanFeeReserve::new(ATTOS as u128, 0, 100, 10, true);
    r.lock_fee(test_vault_id(), xrd(10), false).unwrap();
    let e = r.repay_all().unwrap_err();
    assert!(e.abortion().is_some());
}

#[test]
fn payments_equal_costs_plus_unspent_balance() {
    let mut r = SystemLoanFeeReserve::new(5 * ATTOS as u128, 1, 100, 50, false);
    r.consume_multiplied_execution(2, 1, CostingReason::Invoke).unwrap();
    r.consume_royalty(RoyaltyReceiver::Package(faucet_package(), test_vault_id()), 2).unwrap();
    r.lock_fee(test_vault_id(), xrd(100), false).unwrap();
    r.lock_fee(test_vault_id(), xrd(7), true).unwrap();
    r.repay_all().unwrap();
    let balance = r.remaining_xrd_balance as i128;
    let summary = r.finalize();
    assert_eq!(
        summary.total_execution_cost_xrd.attos + summary.total_royalty_cost_xrd.attos + balance,
        100 * ATTOS
    );
    assert_eq!(summary.total_vault_locks_xrd(), Some(dec(107)));
}

#[test]
fn royalty_overflow_leaves_reserve_unchanged() {
    let mut r = SystemLoanFeeReserve::new(0, 0, u32::MAX, u32::MAX, false);
    let receiver = RoyaltyReceiver::Component(faucet_package(), test_vault_id());
    r.consume_royalty(receiver, u32::MAX - 1).unwrap();
    assert_eq!(r.consume_royalty(receiver, 5), Err(FeeReserveError::Overflow));
    assert_eq!(r.total_cost_units_consumed, u32::MAX - 1);
}
