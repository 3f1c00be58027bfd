use vstd::prelude::*;
use crate::types::{Decimal, FungibleResource, NodeId, radix_token, spec_radix_token};

verus! {

/// Why a transaction run is cut short on purpose.
#[derive(Clone, Copy, Debug, PartialEq, Eq, Structural)]
pub enum AbortReason {
    ConfiguredAbortTriggeredOnFeeLoanRepayment,
}

#[derive(Clone, Copy, Debug, PartialEq, Eq, Structural)]
pub enum FeeReserveError {
    InsufficientBalance,
    Overflow,
    LimitExceeded,
    LoanRepaymentFailed,
    NotXrd,
    Abort(AbortReason),
}

impl FeeReserveError {
    /// The reason of a deliberate abort, where this error is one.
    pub fn abortion(&self) -> (r: Option<AbortReason>)
        ensures
            r == match *self {
                FeeReserveError::Abort(reason) => Some(reason),
                _ => None,
            },
    {
        match self {
            FeeReserveError::Abort(reason) => Some(*reason),
            _ => None,
        }
    }
}

/// Who collects a royalty.
#[derive(Clone, Copy, Debug, PartialEq, Eq, Structural)]
pub enum RoyaltyReceiver {
    Package(NodeId, NodeId),
    Component(NodeId, NodeId),
}

/// Number of costing reasons.
pub const COSTING_REASON_COUNT: usize = 13;

/// What a charge of execution cost units was for.
#[derive(Clone, Copy, Debug, PartialEq, Eq, Structural)]
pub enum CostingReason {
    TxBaseCost,
    TxPayloadCost,
    TxSignatureVerification,
    Invoke,
    DropNode,
    CreateNode,
    LockSubstate,
    ReadSubstate,
    WriteSubstate,
    DropLock,
    InstantiateWasm,
    RunWasm,
    RunNative,
}

pub open spec fn reason_index(r: CostingReason) -> int {
    match r {
        CostingReason::TxBaseCost => 0,
        CostingReason::TxPayloadCost => 1,
        CostingReason::TxSignatureVerification => 2,
        CostingReason::Invoke => 3,
        CostingReason::DropNode => 4,
        CostingReason::CreateNode => 5,
        CostingReason::LockSubstate => 6,
        CostingReason::ReadSubstate => 7,
        CostingReason::WriteSubstate => 8,
        CostingReason::DropLock => 9,
        CostingReason::InstantiateWasm => 10,
        CostingReason::RunWasm => 11,
        CostingReason::RunNative => 12,
    }
}

impl CostingReason {
    /// Position of this reason in the per-reason breakdowns.
    pub fn index(&self) -> (r: usize)
        ensures
            r == reason_index(*self),
            r < COSTING_REASON_COUNT,
    {
        match self {
            CostingReason::TxBaseCost => 0,
            CostingReason::TxPayloadCost => 1,
            CostingReason::TxSignatureVerification => 2,
            CostingReason::Invoke => 3,
            CostingReason::DropNode => 4,
            CostingReason::CreateNode => 5,
            CostingReason::LockSubstate => 6,
            CostingReason::ReadSubstate => 7,
            CostingReason::WriteSubstate => 8,
            CostingReason::DropLock => 9,
            CostingReason::InstantiateWasm => 10,
            CostingReason::RunWasm => 11,
            CostingReason::RunNative => 12,
        }
    }
}

/// Sum of a sequence of cost-unit counters.
pub open spec fn units_sum(s: Seq<u32>) -> int
    decreases s.len(),
{
    if s.len() == 0 {
        0
    } else {
        units_sum(s.drop_last()) + s.last()
    }
}

/// Units charged to `k` in a royalty list (every entry for `k` counts).
pub open spec fn royalty_units(s: Seq<(RoyaltyReceiver, u32)>, k: RoyaltyReceiver) -> int
    decreases s.len(),
{
    if s.len() == 0 {
        0
    } else {
        royalty_units(s.drop_last(), k) + if s.last().0 == k {
            s.last().1 as int
        } else {
            0
        }
    }
}

/// Units charged over all receivers of a royalty list.
pub open spec fn royalty_total(s: Seq<(RoyaltyReceiver, u32)>) -> int
    decreases s.len(),
{
    if s.len() == 0 {
        0
    } else {
        royalty_total(s.drop_last()) + s.last().1
    }
}

/// Sum of the XRD amounts (in attos) of a list of vault payments.
pub open spec fn payments_total(s: Seq<(NodeId, FungibleResource, bool)>) -> int
    decreases s.len(),
{
    if s.len() == 0 {
        0
    } else {
        payments_total(s.drop_last()) + s.last().1.amount@
    }
}

/// Sum of the non-contingent XRD amounts (in attos) of a list of vault payments.
pub open spec fn firm_payments_total(s: Seq<(NodeId, FungibleResource, bool)>) -> int
    decreases s.len(),
{
    if s.len() == 0 {
        0
    } else {
        firm_payments_total(s.drop_last()) + if s.last().2 {
            0
        } else {
            s.last().1.amount@
        }
    }
}

proof fn lemma_royalty_update(s: Seq<(RoyaltyReceiver, u32)>, j: int, v: u32, k: RoyaltyReceiver)
    requires
        0 <= j < s.len(),
    ensures
        royalty_units(s.update(j, (s[j].0, v)), k) == royalty_units(s, k) + if s[j].0 == k {
            v - s[j].1
        } else {
            0
        },
        royalty_total(s.update(j, (s[j].0, v))) == royalty_total(s) + v - s[j].1,
    decreases s.len(),
{
    let t = s.update(j, (s[j].0, v));
    if j == s.len() - 1 {
        assert(t.drop_last() =~= s.drop_last());
    } else {
        assert(t.drop_last() =~= s.drop_last().update(j, (s[j].0, v)));
        lemma_royalty_update(s.drop_last(), j, v, k);
    }
}

/// No receiver stands twice in a royalty list.
pub open spec fn royalty_keys_unique(s: Seq<(RoyaltyReceiver, u32)>) -> bool {
    forall|i: int, j: int| 0 <= i < j < s.len() ==> s[i].0 != s[j].0
}

/// Position of the entry for `k` in a royalty list; -1 where there is none.
pub open spec fn royalty_pos(s: Seq<(RoyaltyReceiver, u32)>, k: RoyaltyReceiver) -> int
    decreases s.len(),
{
    if s.len() == 0 {
        -1
    } else if s.last().0 == k {
        s.len() - 1
    } else {
        royalty_pos(s.drop_last(), k)
    }
}

proof fn lemma_royalty_pos(s: Seq<(RoyaltyReceiver, u32)>, i: int, k: RoyaltyReceiver)
    requires
        royalty_keys_unique(s),
        forall|j: int| 0 <= j < i ==> s[j].0 != k,
        0 <= i <= s.len(),
        i < s.len() ==> s[i].0 == k,
    ensures
        royalty_pos(s, k) == if i < s.len() { i } else { -1 },
    decreases s.len(),
{
    if s.len() > 0 {
        assert(s.last() == s[s.len() - 1]);
        if i < s.len() - 1 {
            assert(s[s.len() - 1].0 != k);
            assert forall|j: int| 0 <= j < i implies s.drop_last()[j].0 != k by {
                assert(s.drop_last()[j] == s[j]);
            }
            assert(s.drop_last()[i] == s[i]);
            lemma_royalty_pos(s.drop_last(), i, k);
        } else if i == s.len() {
            assert forall|j: int| 0 <= j < i - 1 implies s.drop_last()[j].0 != k by {
                assert(s.drop_last()[j] == s[j]);
            }
            lemma_royalty_pos(s.drop_last(), i - 1, k);
        }
    }
}

proof fn lemma_royalty_absent(s: Seq<(RoyaltyReceiver, u32)>, k: RoyaltyReceiver)
    requires
        forall|i: int| 0 <= i < s.len() ==> s[i].0 != k,
    ensures
        royalty_units(s, k) == 0,
    decreases s.len(),
{
    if s.len() > 0 {
        lemma_royalty_absent(s.drop_last(), k);
    }
}

proof fn lemma_royalty_found(s: Seq<(RoyaltyReceiver, u32)>, j: int)
    requires
        royalty_keys_unique(s),
        0 <= j < s.len(),
    ensures
        royalty_units(s, s[j].0) == s[j].1,
    decreases s.len(),
{
    if j == s.len() - 1 {
        lemma_royalty_absent(s.drop_last(), s[j].0);
    } else {
        lemma_royalty_found(s.drop_last(), j);
    }
}

proof fn lemma_royalty_push(s: Seq<(RoyaltyReceiver, u32)>, x: (RoyaltyReceiver, u32))
    ensures
        forall|k: RoyaltyReceiver| #![auto] royalty_units(s.push(x), k) == royalty_units(s, k) + if x.0 == k {
            x.1 as int
        } else {
            0
        },
        royalty_total(s.push(x)) == royalty_total(s) + x.1,
{
    assert(s.push(x).drop_last() =~= s);
}

proof fn lemma_payments_push(s: Seq<(NodeId, FungibleResource, bool)>, x: (NodeId, FungibleResource, bool))
    ensures
        payments_total(s.push(x)) == payments_total(s) + x.1.amount@,
        firm_payments_total(s.push(x)) == firm_payments_total(s) + if x.2 { 0 } else { x.1.amount@ },
{
    assert(s.push(x).drop_last() =~= s);
}

proof fn lemma_firm_within_total(s: Seq<(NodeId, FungibleResource, bool)>)
    requires
        forall|i: int| 0 <= i < s.len() ==> (#[trigger] s[i]).1.amount@ >= 0,
    ensures
        0 <= firm_payments_total(s) <= payments_total(s),
    decreases s.len(),
{
    if s.len() > 0 {
        assert forall|i: int| 0 <= i < s.drop_last().len() implies (#[trigger] s.drop_last()[i]).1.amount@ >= 0 by {
            assert(s.drop_last()[i] == s[i]);
        }
        assert(s.last() == s[s.len() - 1]);
        lemma_firm_within_total(s.drop_last());
    }
}

/// The system-loan fee reserve of one transaction.
///
/// Execution is first paid out of an interest-free loan of cost units, which
/// accrues XRD owed; once the loan is used up, it is paid from the XRD balance
/// that `lock_fee` payments built. The loan must be repaid before commit.
#[derive(Clone, Debug)]
pub struct SystemLoanFeeReserve {
    /// The price of one cost unit, in attos of XRD.
    pub cost_unit_price: u128,
    /// The tip percentage.
    pub tip_percentage: u16,
    /// Payments made during the execution of a transaction.
    pub payments: Vec<(NodeId, FungibleResource, bool)>,
    /// The cost units left on the system loan.
    pub remaining_loan_balance: u32,
    /// The XRD balance built by `lock_fee` payments, in attos.
    pub remaining_xrd_balance: u128,
    /// The XRD owed to the system, in attos.
    pub xrd_owed: u128,
    /// The cost units consumed.
    pub total_cost_units_consumed: u32,
    /// The most cost units that may be consumed.
    pub cost_unit_limit: u32,
    /// Execution costs that are deferred, by reason.
    pub execution_deferred: Vec<u32>,
    pub execution_deferred_total: u32,
    /// Execution cost breakdown, by reason.
    pub execution: Vec<u32>,
    /// Royalty cost breakdown.
    pub royalty: Vec<(RoyaltyReceiver, u32)>,
    /// Price of an execution cost unit, the tip included.
    pub effective_execution_price: u128,
    /// Price of a royalty cost unit.
    pub effective_royalty_price: u128,
    /// Whether to abort the run once the loan is repaid (used to test pending transactions).
    pub abort_when_loan_repaid: bool,
}

/// Cost units a transaction may consume unless configured otherwise.
pub const DEFAULT_COST_UNIT_LIMIT: u32 = 100_000_000;

/// Price of a cost unit unless configured otherwise, in attos of XRD.
pub const DEFAULT_COST_UNIT_PRICE: u128 = 100_000_000_000;

/// Cost units lent to every transaction unless configured otherwise.
pub const DEFAULT_SYSTEM_LOAN: u32 = 10_000_000;

/// What a transaction was charged, reported when its fee reserve closes.
#[derive(Clone, Debug)]
pub struct FeeSummary {
    pub cost_unit_limit: u32,
    pub cost_unit_price: Decimal,
    pub tip_percentage: u16,
    pub total_cost_units_consumed: u32,
    pub total_execution_cost_xrd: Decimal,
    pub total_royalty_cost_xrd: Decimal,
    /// XRD still owed to the system: what the loan left unpaid.
    pub bad_debt_xrd: Decimal,
    pub vault_locks: Vec<(NodeId, FungibleResource, bool)>,
    pub execution_cost_unit_breakdown: Vec<u32>,
    pub royalty_cost_unit_breakdown: Vec<(RoyaltyReceiver, u32)>,
}

impl FeeSummary {
    /// Whether the system loan was repaid in full.
    pub fn loan_fully_repaid(&self) -> (r: bool)
        ensures
            r == (self.bad_debt_xrd@ == 0),
    {
        self.bad_debt_xrd.is_zero()
    }

    /// XRD locked by all vault payments, contingent ones included; `None` where a
    /// running sum leaves the range of a decimal.
    pub fn total_vault_locks_xrd(&self) -> (r: Option<Decimal>)
        ensures
            r matches Some(d) ==> d@ == payments_total(self.vault_locks@),
            r is None <==> exists|i: int| 0 <= i <= self.vault_locks@.len() && !(i128::MIN <= #[trigger] payments_total(
                self.vault_locks@.take(i)) <= i128::MAX),
    {
        let mut total = Decimal::zero();
        let mut i: usize = 0;
        proof {
            assert(self.vault_locks@.take(0) =~= Seq::<(NodeId, FungibleResource, bool)>::empty());
        }
        while i < self.vault_locks.len()
            invariant
                i <= self.vault_locks@.len(),
                total@ == payments_total(self.vault_locks@.take(i as int)),
                forall|j: int| 0 <= j <= i ==> i128::MIN <= #[trigger] payments_total(self.vault_locks@.take(j)) <= i128::MAX,
            decreases self.vault_locks@.len() - i,
        {
            proof {
                assert(self.vault_locks@.take(i + 1).drop_last() =~= self.vault_locks@.take(i as int));
            }
            match total.safe_add(self.vault_locks[i].1.amount) {
                Some(t) => {
                    total = t;
                },
                None => {
                    assert(!(i128::MIN <= payments_total(self.vault_locks@.take(i + 1)) <= i128::MAX));
                    return None;
                },
            }
            i = i + 1;
        }
        proof {
            assert(self.vault_locks@.take(i as int) =~= self.vault_locks@);
        }
        Some(total)
    }
}

/// The price of an execution cost unit: the base price plus the tip.
pub open spec fn effective_price(price: int, tip: int) -> int {
    price + price * tip / 100
}

impl SystemLoanFeeReserve {
    pub open spec fn wf(&self) -> bool {
        &&& self.execution@.len() == COSTING_REASON_COUNT
        &&& self.execution_deferred@.len() == COSTING_REASON_COUNT
        &&& self.execution_deferred_total == units_sum(self.execution_deferred@)
        &&& royalty_keys_unique(self.royalty@)
        &&& self.remaining_xrd_balance <= firm_payments_total(self.payments@)
        &&& forall|i: int| 0 <= i < self.payments@.len() ==> (#[trigger] self.payments@[i]).1.amount@ >= 0
        &&& firm_payments_total(self.payments@) + self.xrd_owed == self.remaining_xrd_balance + self.charged()
    }

    /// XRD charged so far: execution units at the execution price plus royalty
    /// units at the royalty price.
    pub open spec fn charged(&self) -> int {
        self.effective_execution_price * units_sum(self.execution@) + self.effective_royalty_price * royalty_total(
            self.royalty@,
        )
    }

    /// The fields that no charge changes: prices, limits and configuration.
    pub open spec fn same_config(&self, s: SystemLoanFeeReserve) -> bool {
        &&& self.cost_unit_price == s.cost_unit_price
        &&& self.tip_percentage == s.tip_percentage
        &&& self.cost_unit_limit == s.cost_unit_limit
        &&& self.effective_execution_price == s.effective_execution_price
        &&& self.effective_royalty_price == s.effective_royalty_price
        &&& self.abort_when_loan_repaid == s.abort_when_loan_repaid
        &&& self.payments@ == s.payments@
    }

    /// `self` is `s` with execution breakdown `exec` and royalties `roy`.
    pub open spec fn same_as_with(
        &self,
        s: SystemLoanFeeReserve,
        exec: Seq<u32>,
        roy: Seq<(RoyaltyReceiver, u32)>,
    ) -> bool {
        &&& self.same_config(s)
        &&& self.remaining_loan_balance == s.remaining_loan_balance
        &&& self.remaining_xrd_balance == s.remaining_xrd_balance
        &&& self.xrd_owed == s.xrd_owed
        &&& self.total_cost_units_consumed == s.total_cost_units_consumed
        &&& self.execution_deferred@ == s.execution_deferred@
        &&& self.execution_deferred_total == s.execution_deferred_total
        &&& self.execution@ == exec
        &&& self.royalty@ == roy
    }

    /// What charging `cost_units` execution cost units for `reason` does from state
    /// `s`, ending in `f` with result `r`.
    pub open spec fn execution_post(
        s: SystemLoanFeeReserve,
        cost_units: int,
        reason: CostingReason,
        f: SystemLoanFeeReserve,
        r: Result<(), FeeReserveError>,
    ) -> bool {
        if cost_units == 0 {
            r is Ok && f == s
        } else {
            let price = s.effective_execution_price as int;
            let c = s.after_consume(cost_units, price);
            let k = reason_index(reason);
            let exec = c.execution@.update(k, (c.execution@[k] + cost_units) as u32);
            if s.execution@[k] + cost_units > u32::MAX {
                r == Err::<(), FeeReserveError>(FeeReserveError::Overflow) && f == s
            } else if s.consume_error(cost_units, price) is Some {
                r == Err::<(), FeeReserveError>(s.consume_error(cost_units, price)->0) && f == s
            } else if c.remaining_loan_balance == 0 && !c.spec_fully_repaid() {
                Self::repay_post(c, exec, c.royalty@, f, r)
            } else {
                r is Ok && f.same_as_with(c, exec, c.royalty@)
            }
        }
    }

    /// What `repay_all` does from state `s`, whose execution breakdown is `exec`
    /// and whose royalties are `roy`, ending in `f` with result `r`.
    pub open spec fn repay_post(
        s: SystemLoanFeeReserve,
        exec: Seq<u32>,
        roy: Seq<(RoyaltyReceiver, u32)>,
        f: SystemLoanFeeReserve,
        r: Result<(), FeeReserveError>,
    ) -> bool {
        let total = s.execution_deferred_total as int;
        let price = s.effective_execution_price as int;
        let c = s.after_consume(total, price);
        if !(forall|i: int|
            0 <= i < COSTING_REASON_COUNT ==> exec[i] + s.execution_deferred@[i] <= u32::MAX) {
            r == Err::<(), FeeReserveError>(FeeReserveError::Overflow) && f.same_as_with(s, exec, roy)
        } else if s.consume_error(total, price) is Some {
            r == Err::<(), FeeReserveError>(s.consume_error(total, price)->0) && f.same_as_with(s, exec, roy)
        } else {
            &&& f.same_config(s)
            &&& f.royalty@ == roy
            &&& f.execution@ == Seq::new(
                COSTING_REASON_COUNT as nat,
                |i: int| (exec[i] + s.execution_deferred@[i]) as u32,
            )
            &&& f.execution_deferred@ == Seq::new(COSTING_REASON_COUNT as nat, |i: int| 0u32)
            &&& f.execution_deferred_total == 0
            &&& f.remaining_loan_balance == c.remaining_loan_balance
            &&& f.total_cost_units_consumed == c.total_cost_units_consumed
            &&& if c.remaining_xrd_balance < c.xrd_owed {
                &&& r == Err::<(), FeeReserveError>(FeeReserveError::LoanRepaymentFailed)
                &&& f.remaining_xrd_balance == c.remaining_xrd_balance
                &&& f.xrd_owed == c.xrd_owed
            } else {
                &&& f.remaining_xrd_balance == c.remaining_xrd_balance - c.xrd_owed
                &&& f.xrd_owed == 0
                &&& r == if s.abort_when_loan_repaid {
                    Err::<(), FeeReserveError>(
                        FeeReserveError::Abort(AbortReason::ConfiguredAbortTriggeredOnFeeLoanRepayment),
                    )
                } else {
                    Ok::<(), FeeReserveError>(())
                }
            }
        }
    }

    pub open spec fn spec_fully_repaid(&self) -> bool {
        self.xrd_owed == 0 && self.execution_deferred_total == 0
    }

    /// The error that consuming `units` at `price` meets, if any.
    pub open spec fn consume_error(&self, units: int, price: int) -> Option<FeeReserveError> {
        let total = self.total_cost_units_consumed + units;
        let from_loan = if self.remaining_loan_balance >= units {
            units
        } else {
            self.remaining_loan_balance as int
        };
        let from_balance = price * (units - from_loan);
        if total > u32::MAX {
            Some(FeeReserveError::Overflow)
        } else if total > self.cost_unit_limit {
            Some(FeeReserveError::LimitExceeded)
        } else if from_balance > u128::MAX {
            Some(FeeReserveError::Overflow)
        } else if self.remaining_xrd_balance < from_balance {
            Some(FeeReserveError::InsufficientBalance)
        } else if self.xrd_owed + price * from_loan > u128::MAX {
            Some(FeeReserveError::Overflow)
        } else {
            None
        }
    }

    /// The state after consuming `units` at `price`: the loan pays first, the
    /// balance pays the rest.
    pub open spec fn after_consume(&self, units: int, price: int) -> SystemLoanFeeReserve {
        let from_loan = if self.remaining_loan_balance >= units {
            units
        } else {
            self.remaining_loan_balance as int
        };
        SystemLoanFeeReserve {
            remaining_loan_balance: (self.remaining_loan_balance - from_loan) as u32,
            remaining_xrd_balance: (self.remaining_xrd_balance - price * (units - from_loan)) as u128,
            xrd_owed: (self.xrd_owed + price * from_loan) as u128,
            total_cost_units_consumed: (self.total_cost_units_consumed + units) as u32,
            ..*self
        }
    }

    pub fn new(
        cost_unit_price: u128,
        tip_percentage: u16,
        cost_unit_limit: u32,
        system_loan: u32,
        abort_when_loan_repaid: bool,
    ) -> (r: SystemLoanFeeReserve)
        requires
            cost_unit_price * tip_percentage <= u128::MAX,
            effective_price(cost_unit_price as int, tip_percentage as int) <= u128::MAX,
        ensures
            r.wf(),
            r.cost_unit_price == cost_unit_price,
            r.tip_percentage == tip_percentage,
            r.payments@.len() == 0,
            r.remaining_loan_balance == system_loan,
            r.remaining_xrd_balance == 0,
            r.xrd_owed == 0,
            r.total_cost_units_consumed == 0,
            r.cost_unit_limit == cost_unit_limit,
            r.execution@ == Seq::new(COSTING_REASON_COUNT as nat, |i: int| 0u32),
            r.execution_deferred@ == Seq::new(COSTING_REASON_COUNT as nat, |i: int| 0u32),
            r.royalty@.len() == 0,
            r.effective_execution_price == effective_price(cost_unit_price as int, tip_percentage as int),
            r.effective_royalty_price == cost_unit_price,
            r.abort_when_loan_repaid == abort_when_loan_repaid,
    {
        let execution: Vec<u32> = vec![0u32; COSTING_REASON_COUNT];
        let execution_deferred: Vec<u32> = vec![0u32; COSTING_REASON_COUNT];
        proof {
            assert(execution@ =~= Seq::new(COSTING_REASON_COUNT as nat, |i: int| 0u32));
            assert(execution_deferred@ =~= Seq::new(COSTING_REASON_COUNT as nat, |i: int| 0u32));
            lemma_zero_units_sum(execution_deferred@);
        }
        SystemLoanFeeReserve {
            cost_unit_price,
            tip_percentage,
            payments: Vec::new(),
            remaining_loan_balance: system_loan,
            remaining_xrd_balance: 0,
            xrd_owed: 0,
            total_cost_units_consumed: 0,
            cost_unit_limit,
            execution_deferred,
            execution_deferred_total: 0,
            execution,
            royalty: Vec::new(),
            effective_execution_price: cost_unit_price + cost_unit_price * (tip_percentage as u128)
                / 100,
            effective_royalty_price: cost_unit_price,
            abort_when_loan_repaid,
        }
    }

    /// Charges `units` at `price`, from the loan while it lasts, then from the balance.
    fn consume(&mut self, units: u32, price: u128) -> (r: Result<(), FeeReserveError>)
        ensures
            r is Err <==> old(self).consume_error(units as int, price as int) is Some,
            r matches Err(e) ==> old(self).consume_error(units as int, price as int) == Some(e)
                && *final(self) == *old(self),
            r is Ok ==> *final(self) == old(self).after_consume(units as int, price as int),
    {
        let total = match checked_add(self.total_cost_units_consumed, units) {
            Ok(t) => t,
            Err(e) => return Err(e),
        };
        if total > self.cost_unit_limit {
            return Err(FeeReserveError::LimitExceeded);
        }
        let from_loan: u32 = if self.remaining_loan_balance >= units {
            units
        } else {
            self.remaining_loan_balance
        };
        let from_balance = match price.checked_mul((units - from_loan) as u128) {
            Some(v) => v,
            None => return Err(FeeReserveError::Overflow),
        };
        if self.remaining_xrd_balance < from_balance {
            return Err(FeeReserveError::InsufficientBalance);
        }
        let owed_delta = match price.checked_mul(from_loan as u128) {
            Some(v) => v,
            None => return Err(FeeReserveError::Overflow),
        };
        let owed = match self.xrd_owed.checked_add(owed_delta) {
            Some(v) => v,
            None => return Err(FeeReserveError::Overflow),
        };
        self.xrd_owed = owed;
        self.remaining_loan_balance = self.remaining_loan_balance - from_loan;
        self.remaining_xrd_balance = self.remaining_xrd_balance - from_balance;
        self.total_cost_units_consumed = total;
        Ok(())
    }

    /// Repays the loan and the deferred costs in full.
    pub fn repay_all(&mut self) -> (r: Result<(), FeeReserveError>)
        requires
            old(self).wf(),
        ensures
            final(self).wf(),
            Self::repay_post(*old(self), old(self).execution@, old(self).royalty@, *final(self), r),
    {
        let ghost s0 = *self;
        let mut i: usize = 0;
        while i < COSTING_REASON_COUNT
            invariant
                *self == s0,
                s0.wf(),
                i <= COSTING_REASON_COUNT,
                forall|j: int| 0 <= j < i ==> s0.execution@[j] + s0.execution_deferred@[j] <= u32::MAX,
            decreases COSTING_REASON_COUNT - i,
        {
            if self.execution[i].checked_add(self.execution_deferred[i]).is_none() {
                return Err(FeeReserveError::Overflow);
            }
            i = i + 1;
        }
        let price = self.execution_price();
        let total = self.execution_deferred_total;
        match self.consume(total, price) {
            Err(e) => return Err(e),
            Ok(()) => {},
        }
        let ghost s1 = *self;
        let mut i: usize = 0;
        while i < COSTING_REASON_COUNT
            invariant
                s0.wf(),
                s1 == s0.after_consume(total as int, price as int),
                i <= COSTING_REASON_COUNT,
                forall|j: int| 0 <= j < COSTING_REASON_COUNT ==> s0.execution@[j] + s0.execution_deferred@[j] <= u32::MAX,
                self.execution@.len() == COSTING_REASON_COUNT,
                self.execution_deferred@.len() == COSTING_REASON_COUNT,
                forall|j: int| 0 <= j < i ==> self.execution@[j] == s0.execution@[j] + s0.execution_deferred@[j],
                forall|j: int| 0 <= j < i ==> self.execution_deferred@[j] == 0,
                forall|j: int| i <= j < COSTING_REASON_COUNT ==> self.execution@[j] == s0.execution@[j],
                forall|j: int| i <= j < COSTING_REASON_COUNT ==> self.execution_deferred@[j] == s0.execution_deferred@[j],
                self.same_config(s1),
                self.royalty@ == s1.royalty@,
                self.remaining_loan_balance == s1.remaining_loan_balance,
                self.remaining_xrd_balance == s1.remaining_xrd_balance,
                self.xrd_owed == s1.xrd_owed,
                self.total_cost_units_consumed == s1.total_cost_units_consumed,
            decreases COSTING_REASON_COUNT - i,
        {
            assert(self.execution@[i as int] == s0.execution@[i as int]);
            assert(self.execution_deferred@[i as int] == s0.execution_deferred@[i as int]);
            assert(s0.execution@[i as int] + s0.execution_deferred@[i as int] <= u32::MAX);
            let v = self.execution[i] + self.execution_deferred[i];
            self.execution.set(i, v);
            self.execution_deferred.set(i, 0);
            i = i + 1;
        }
        self.execution_deferred_total = 0;
        proof {
            assert(self.execution@ =~= Seq::new(
                COSTING_REASON_COUNT as nat,
                |j: int| (s0.execution@[j] + s0.execution_deferred@[j]) as u32,
            ));
            assert(self.execution_deferred@ =~= Seq::new(COSTING_REASON_COUNT as nat, |j: int| 0u32));
            lemma_zero_units_sum(self.execution_deferred@);
            lemma_units_sum_pointwise(s0.execution@, s0.execution_deferred@, self.execution@);
            lemma_charge_balanced(s0, total as int, price as int);
            assert(price * units_sum(self.execution@) == price * units_sum(s0.execution@) + price * total) by (nonlinear_arith)
                requires units_sum(self.execution@) == units_sum(s0.execution@) + total;
        }
        if self.remaining_xrd_balance < self.xrd_owed {
            return Err(FeeReserveError::LoanRepaymentFailed);
        }
        self.remaining_xrd_balance = self.remaining_xrd_balance - self.xrd_owed;
        self.xrd_owed = 0;
        if self.abort_when_loan_repaid {
            return Err(
                FeeReserveError::Abort(AbortReason::ConfiguredAbortTriggeredOnFeeLoanRepayment),
            );
        }
        Ok(())
    }

    /// Charges execution cost units for `reason`, repaying the loan in full once it runs out.
    pub fn consume_execution(&mut self, cost_units: u32, reason: CostingReason) -> (r: Result<
        (),
        FeeReserveError,
    >)
        requires
            old(self).wf(),
        ensures
            final(self).wf(),
            Self::execution_post(*old(self), cost_units as int, reason, *final(self), r),
    {
        if cost_units == 0 {
            return Ok(());
        }
        let price = self.execution_price();
        let k = reason.index();
        let v = match checked_add(self.execution[k], cost_units) {
            Ok(v) => v,
            Err(e) => return Err(e),
        };
        let ghost s0 = *self;
        match self.consume(cost_units, price) {
            Err(e) => return Err(e),
            Ok(()) => {},
        }
        let ghost e1 = self.execution@;
        self.execution.set(k, v);
        proof {
            lemma_units_sum_update(e1, k as int, v);
            lemma_charge_balanced(s0, cost_units as int, price as int);
            assert(price * units_sum(self.execution@) == price * units_sum(e1) + price * cost_units) by (nonlinear_arith)
                requires units_sum(self.execution@) == units_sum(e1) + cost_units;
        }
        if self.remaining_loan_balance == 0 && !self.fully_repaid() {
            return self.repay_all();
        }
        Ok(())
    }

    /// Charges `multiplier` times `cost_units_per_multiple` execution cost units for `reason`.
    pub fn consume_multiplied_execution(
        &mut self,
        cost_units_per_multiple: u32,
        multiplier: usize,
        reason: CostingReason,
    ) -> (r: Result<(), FeeReserveError>)
        requires
            old(self).wf(),
        ensures
            final(self).wf(),
            multiplier == 0 ==> r is Ok && *final(self) == *old(self),
            multiplier > 0 && !(multiplier <= u32::MAX && cost_units_per_multiple * multiplier
                <= u32::MAX) ==> r == Err::<(), FeeReserveError>(FeeReserveError::Overflow)
                && *final(self) == *old(self),
            multiplier > 0 && multiplier <= u32::MAX && cost_units_per_multiple * multiplier <= u32::MAX
                ==> Self::execution_post(*old(self), cost_units_per_multiple * multiplier, reason, *final(self), r),
    {
        if multiplier == 0 {
            return Ok(());
        }
        match checked_multiply(cost_units_per_multiple, multiplier) {
            Ok(units) => self.consume_execution(units, reason),
            Err(e) => Err(e),
        }
    }

    /// Records execution cost units whose charge waits for the loan repayment.
    pub fn consume_deferred(&mut self, amount: u32, multiplier: usize, reason: CostingReason) -> (r:
        Result<(), FeeReserveError>)
        requires
            old(self).wf(),
        ensures
            final(self).wf(),
            amount == 0 ==> r is Ok && *final(self) == *old(self),
            amount > 0 ==> ({
                let s = *old(self);
                let units = amount * multiplier;
                let k = reason_index(reason);
                if multiplier <= u32::MAX && units <= u32::MAX && s.execution_deferred@[k] + units
                    <= u32::MAX && s.execution_deferred_total + units <= u32::MAX {
                    &&& r is Ok
                    &&& final(self).execution_deferred@ == s.execution_deferred@.update(
                        k,
                        (s.execution_deferred@[k] + units) as u32,
                    )
                    &&& final(self).execution_deferred_total == s.execution_deferred_total + units
                    &&& final(self).same_config(s)
                    &&& final(self).execution@ == s.execution@
                    &&& final(self).royalty@ == s.royalty@
                    &&& final(self).remaining_loan_balance == s.remaining_loan_balance
                    &&& final(self).remaining_xrd_balance == s.remaining_xrd_balance
                    &&& final(self).xrd_owed == s.xrd_owed
                    &&& final(self).total_cost_units_consumed == s.total_cost_units_consumed
                } else {
                    r == Err::<(), FeeReserveError>(FeeReserveError::Overflow) && *final(self) == s
                }
            }),
    {
        if amount == 0 {
            return Ok(());
        }
        let units = match checked_multiply(amount, multiplier) {
            Ok(u) => u,
            Err(e) => return Err(e),
        };
        let k = reason.index();
        let v = match checked_add(self.execution_deferred[k], units) {
            Ok(v) => v,
            Err(e) => return Err(e),
        };
        let t = match checked_add(self.execution_deferred_total, units) {
            Ok(t) => t,
            Err(e) => return Err(e),
        };
        let ghost d0 = self.execution_deferred@;
        self.execution_deferred.set(k, v);
        self.execution_deferred_total = t;
        proof {
            lemma_units_sum_update(d0, k as int, v);
        }
        Ok(())
    }

    /// Charges royalty cost units to `receiver`, at the cost-unit price without tip.
    pub fn consume_royalty(&mut self, receiver: RoyaltyReceiver, cost_units: u32) -> (r: Result<
        (),
        FeeReserveError,
    >)
        requires
            old(self).wf(),
        ensures
            final(self).wf(),
            cost_units == 0 ==> r is Ok && *final(self) == *old(self),
            cost_units > 0 ==> ({
                let s = *old(self);
                let price = s.effective_royalty_price as int;
                let c = s.after_consume(cost_units as int, price);
                if royalty_units(s.royalty@, receiver) + cost_units > u32::MAX {
                    r == Err::<(), FeeReserveError>(FeeReserveError::Overflow) && *final(self) == s
                } else if s.consume_error(cost_units as int, price) is Some {
                    r == Err::<(), FeeReserveError>(s.consume_error(cost_units as int, price)->0)
                        && *final(self) == s
                } else {
                    let roy = final(self).royalty@;
                    let pos = royalty_pos(c.royalty@, receiver);
                    &&& roy == if pos >= 0 {
                        c.royalty@.update(pos, (receiver, (c.royalty@[pos].1 + cost_units) as u32))
                    } else {
                        c.royalty@.push((receiver, cost_units))
                    }
                    &&& royalty_total(roy) == royalty_total(c.royalty@) + cost_units
                    &&& forall|k: RoyaltyReceiver| #![auto] royalty_units(roy, k) == royalty_units(c.royalty@, k)
                        + if k == receiver { cost_units as int } else { 0 }
                    &&& if c.remaining_loan_balance == 0 && !c.spec_fully_repaid() {
                        Self::repay_post(c, c.execution@, roy, *final(self), r)
                    } else {
                        r is Ok && final(self).same_as_with(c, c.execution@, roy)
                    }
                }
            }),
    {
        if cost_units == 0 {
            return Ok(());
        }
        let price = self.royalty_price();
        let ghost r0 = self.royalty@;
        let ghost s0 = *self;
        let mut i: usize = 0;
        let mut found = false;
        while i < self.royalty.len() && !found
            invariant
                *self == s0,
                s0 == *old(self),
                self.royalty@ == r0,
                i <= r0.len(),
                forall|j: int| 0 <= j < i ==> r0[j].0 != receiver,
                found ==> i < r0.len() && r0[i as int].0 == receiver,
            decreases r0.len() - i + if found { 0int } else { 1int },
        {
            if self.royalty[i].0 == receiver {
                found = true;
            } else {
                i = i + 1;
            }
        }
        let mut v: u32 = cost_units;
        if found {
            proof {
                lemma_royalty_found(r0, i as int);
            }
            v = match checked_add(self.royalty[i].1, cost_units) {
                Ok(v) => v,
                Err(e) => return Err(e),
            };
        } else {
            proof {
                lemma_royalty_absent(r0, receiver);
            }
        }
        match self.consume(cost_units, price) {
            Err(e) => return Err(e),
            Ok(()) => {},
        }
        proof {
            lemma_charge_balanced(s0, cost_units as int, price as int);
        }
        if found {
            self.royalty.set(i, (receiver, v));
            proof {
                lemma_royalty_pos(r0, i as int, receiver);
                lemma_royalty_update(r0, i as int, v, receiver);
                assert forall|k: RoyaltyReceiver| #![auto] royalty_units(self.royalty@, k) == royalty_units(r0, k)
                    + if k == receiver { cost_units as int } else { 0 } by {
                    lemma_royalty_update(r0, i as int, v, k);
                }
                assert(self.royalty@ == r0.update(i as int, (r0[i as int].0, v)));
                assert(royalty_keys_unique(self.royalty@));
            }
        } else {
            proof {
                lemma_royalty_push(r0, (receiver, cost_units));
                lemma_royalty_pos(r0, r0.len() as int, receiver);
            }
            self.royalty.push((receiver, cost_units));
            assert(royalty_keys_unique(self.royalty@));
        }
        proof {
            assert(price * royalty_total(self.royalty@) == price * royalty_total(r0) + price * cost_units) by (nonlinear_arith)
                requires royalty_total(self.royalty@) == royalty_total(r0) + cost_units;
            assert(self.wf());
        }
        if self.remaining_loan_balance == 0 && !self.fully_repaid() {
            return self.repay_all();
        }
        Ok(())
    }

    /// Takes `fee` from a vault into the reserve. A contingent payment is recorded
    /// but adds nothing to the balance. Hands back the emptied resource.
    pub fn lock_fee(&mut self, vault_id: NodeId, fee: FungibleResource, contingent: bool) -> (r:
        Result<FungibleResource, FeeReserveError>)
        requires
            old(self).wf(),
            fee.amount@ >= 0,
        ensures
            final(self).wf(),
            fee.resource_address != spec_radix_token() ==> r == Err::<FungibleResource, FeeReserveError>(
                FeeReserveError::NotXrd) && *final(self) == *old(self),
            fee.resource_address == spec_radix_token() && !contingent && old(self).remaining_xrd_balance
                + fee.amount@ > u128::MAX ==> r == Err::<FungibleResource, FeeReserveError>(
                FeeReserveError::Overflow) && *final(self) == *old(self),
            fee.resource_address == spec_radix_token() && (contingent || old(self).remaining_xrd_balance
                + fee.amount@ <= u128::MAX) ==> {
                &&& r == Ok::<FungibleResource, FeeReserveError>(
                    FungibleResource { amount: Decimal { attos: 0 }, ..fee },
                )
                &&& final(self).payments@ == old(self).payments@.push((vault_id, fee, contingent))
                &&& final(self).remaining_xrd_balance == old(self).remaining_xrd_balance + if contingent {
                    0
                } else {
                    fee.amount@
                }
                &&& final(self).cost_unit_price == old(self).cost_unit_price
                &&& final(self).tip_percentage == old(self).tip_percentage
                &&& final(self).cost_unit_limit == old(self).cost_unit_limit
                &&& final(self).effective_execution_price == old(self).effective_execution_price
                &&& final(self).effective_royalty_price == old(self).effective_royalty_price
                &&& final(self).abort_when_loan_repaid == old(self).abort_when_loan_repaid
                &&& final(self).remaining_loan_balance == old(self).remaining_loan_balance
                &&& final(self).xrd_owed == old(self).xrd_owed
                &&& final(self).total_cost_units_consumed == old(self).total_cost_units_consumed
                &&& final(self).execution@ == old(self).execution@
                &&& final(self).execution_deferred@ == old(self).execution_deferred@
                &&& final(self).execution_deferred_total == old(self).execution_deferred_total
                &&& final(self).royalty@ == old(self).royalty@
            },
    {
        let mut fee = fee;
        if fee.resource_address() != radix_token() {
            return Err(FeeReserveError::NotXrd);
        }
        if !contingent {
            let amount = decimal_to_u128(fee.amount());
            match self.remaining_xrd_balance.checked_add(amount) {
                Some(b) => {
                    self.remaining_xrd_balance = b;
                },
                None => return Err(FeeReserveError::Overflow),
            }
        }
        proof {
            lemma_payments_push(self.payments@, (vault_id, fee, contingent));
        }
        let ghost p0 = self.payments@;
        self.payments.push((vault_id, fee.take_all(), contingent));
        proof {
            assert forall|i: int| 0 <= i < self.payments@.len() implies (#[trigger] self.payments@[i]).1.amount@ >= 0 by {
                if i < p0.len() {
                    assert(self.payments@[i] == p0[i]);
                }
            }
        }
        Ok(fee)
    }

    /// A reserve that charges nothing.
    pub fn no_fee() -> (r: SystemLoanFeeReserve)
        ensures
            r.wf(),
            r.cost_unit_price == 0,
            r.effective_execution_price == 0,
            r.effective_royalty_price == 0,
            r.cost_unit_limit == DEFAULT_COST_UNIT_LIMIT,
            r.remaining_loan_balance == DEFAULT_SYSTEM_LOAN,
            !r.abort_when_loan_repaid,
    {
        Self::new(0, 0, DEFAULT_COST_UNIT_LIMIT, DEFAULT_SYSTEM_LOAN, false)
    }

    /// Closes the reserve and reports what was charged. Amounts are in XRD.
    pub fn finalize(self) -> (r: FeeSummary)
        requires
            self.wf(),
            self.cost_unit_price <= i128::MAX,
            self.xrd_owed <= i128::MAX,
            self.effective_execution_price * units_sum(self.execution@) <= i128::MAX,
            self.effective_royalty_price * royalty_total(self.royalty@) <= i128::MAX,
        ensures
            r.cost_unit_limit == self.cost_unit_limit,
            r.cost_unit_price@ == self.cost_unit_price,
            r.tip_percentage == self.tip_percentage,
            r.total_cost_units_consumed == self.total_cost_units_consumed,
            r.total_execution_cost_xrd@ == self.effective_execution_price * units_sum(self.execution@),
            r.total_royalty_cost_xrd@ == self.effective_royalty_price * royalty_total(self.royalty@),
            r.bad_debt_xrd@ == self.xrd_owed,
            r.vault_locks@ == self.payments@,
            r.execution_cost_unit_breakdown@ == self.execution@,
            r.royalty_cost_unit_breakdown@ == self.royalty@,
    {
        let mut exec_units: u128 = 0;
        let mut i: usize = 0;
        while i < self.execution.len()
            invariant
                i <= self.execution@.len(),
                exec_units == units_sum(self.execution@.take(i as int)),
                exec_units <= i * 0xffff_ffff,
            decreases self.execution@.len() - i,
        {
            proof {
                assert(self.execution@.take(i + 1).drop_last() =~= self.execution@.take(i as int));
            }
            exec_units = exec_units + self.execution[i] as u128;
            i = i + 1;
        }
        proof {
            assert(self.execution@.take(i as int) =~= self.execution@);
        }
        let mut royalty_units_total: u128 = 0;
        let mut j: usize = 0;
        while j < self.royalty.len()
            invariant
                j <= self.royalty@.len(),
                royalty_units_total == royalty_total(self.royalty@.take(j as int)),
                royalty_units_total <= j * 0xffff_ffff,
            decreases self.royalty@.len() - j,
        {
            proof {
                assert(self.royalty@.take(j + 1).drop_last() =~= self.royalty@.take(j as int));
            }
            royalty_units_total = royalty_units_total + self.royalty[j].1 as u128;
            j = j + 1;
        }
        proof {
            assert(self.royalty@.take(j as int) =~= self.royalty@);
        }
        let exec_price = self.execution_price();
        let royalty_price = self.royalty_price();
        FeeSummary {
            cost_unit_limit: self.cost_unit_limit,
            cost_unit_price: u128_to_decimal(self.cost_unit_price),
            tip_percentage: self.tip_percentage,
            total_cost_units_consumed: self.total_cost_units_consumed,
            total_execution_cost_xrd: u128_to_decimal(exec_price * exec_units),
            total_royalty_cost_xrd: u128_to_decimal(royalty_price * royalty_units_total),
            bad_debt_xrd: u128_to_decimal(self.xrd_owed),
            vault_locks: self.payments,
            execution_cost_unit_breakdown: self.execution,
            royalty_cost_unit_breakdown: self.royalty,
        }
    }

    pub fn execution_price(&self) -> (r: u128)
        ensures
            r == self.effective_execution_price,
    {
        self.effective_execution_price
    }

    pub fn royalty_price(&self) -> (r: u128)
        ensures
            r == self.effective_royalty_price,
    {
        self.effective_royalty_price
    }

    pub fn fully_repaid(&self) -> (r: bool)
        ensures
            r == self.spec_fully_repaid(),
    {
        self.xrd_owed == 0 && self.execution_deferred_total == 0
    }
}

/// Fees are paid, never refunded: the XRD spent so far (firm payments less the
/// balance left) is never negative, and never more than all vault payments together.
pub proof fn lemma_fees_paid_from_payments(r: SystemLoanFeeReserve)
    requires
        r.wf(),
    ensures
        0 <= firm_payments_total(r.payments@) - r.remaining_xrd_balance,
        firm_payments_total(r.payments@) - r.remaining_xrd_balance <= payments_total(r.payments@),
{
    lemma_firm_within_total(r.payments@);
}

/// Fees add up: once nothing is owed, the non-contingent vault payments are
/// exactly the execution cost, the royalty cost and the unspent balance together
/// (the three amounts `finalize` reports, with `vault_locks` the payments).
pub proof fn lemma_fees_add_up(r: SystemLoanFeeReserve)
    requires
        r.wf(),
        r.xrd_owed == 0,
    ensures
        firm_payments_total(r.payments@) == r.effective_execution_price * units_sum(r.execution@)
            + r.effective_royalty_price * royalty_total(r.royalty@) + r.remaining_xrd_balance,
{
}

/// Charging is deterministic: the same charge on the same reserve fails the same
/// way or leaves the same reserve.
pub proof fn lemma_consume_deterministic(a: SystemLoanFeeReserve, b: SystemLoanFeeReserve, units: u32, price: u128)
    requires
        a == b,
    ensures
        a.consume_error(units as int, price as int) == b.consume_error(units as int, price as int),
        a.after_consume(units as int, price as int) == b.after_consume(units as int, price as int),
{
}

proof fn lemma_zero_units_sum(s: Seq<u32>)
    requires
        forall|i: int| 0 <= i < s.len() ==> s[i] == 0,
    ensures
        units_sum(s) == 0,
    decreases s.len(),
{
    if s.len() > 0 {
        lemma_zero_units_sum(s.drop_last());
    }
}

impl Default for SystemLoanFeeReserve {
    fn default() -> (r: SystemLoanFeeReserve)
        ensures
            r.wf(),
            r.cost_unit_price == DEFAULT_COST_UNIT_PRICE,
            r.tip_percentage == 0,
            r.cost_unit_limit == DEFAULT_COST_UNIT_LIMIT,
            r.remaining_loan_balance == DEFAULT_SYSTEM_LOAN,
            !r.abort_when_loan_repaid,
    {
        SystemLoanFeeReserve::new(
            DEFAULT_COST_UNIT_PRICE,
            0,
            DEFAULT_COST_UNIT_LIMIT,
            DEFAULT_SYSTEM_LOAN,
            false,
        )
    }
}

/// A successful charge of `units` at `price` moves exactly `price * units` between
/// the balance and the debt.
proof fn lemma_charge_balanced(s: SystemLoanFeeReserve, units: int, price: int)
    requires
        s.consume_error(units, price) is None,
        units >= 0,
        price >= 0,
    ensures
        s.after_consume(units, price).remaining_xrd_balance - s.after_consume(units, price).xrd_owed
            == s.remaining_xrd_balance - s.xrd_owed - price * units,
{
    let fl = if s.remaining_loan_balance >= units { units } else { s.remaining_loan_balance as int };
    assert(price * units == price * (units - fl) + price * fl) by (nonlinear_arith);
}

proof fn lemma_units_sum_pointwise(a: Seq<u32>, b: Seq<u32>, c: Seq<u32>)
    requires
        a.len() == b.len() == c.len(),
        forall|i: int| 0 <= i < a.len() ==> c[i] == a[i] + b[i],
    ensures
        units_sum(c) == units_sum(a) + units_sum(b),
    decreases a.len(),
{
    if a.len() > 0 {
        lemma_units_sum_pointwise(a.drop_last(), b.drop_last(), c.drop_last());
    }
}

proof fn lemma_units_sum_update(s: Seq<u32>, k: int, v: u32)
    requires
        0 <= k < s.len(),
    ensures
        units_sum(s.update(k, v)) == units_sum(s) + v - s[k],
    decreases s.len(),
{
    let t = s.update(k, v);
    if k == s.len() - 1 {
        assert(t.drop_last() =~= s.drop_last());
    } else {
        assert(t.drop_last() =~= s.drop_last().update(k, v));
        lemma_units_sum_update(s.drop_last(), k, v);
    }
}

/// An amount of attos as a decimal.
pub fn u128_to_decimal(a: u128) -> (r: Decimal)
    requires
        a <= i128::MAX,
    ensures
        r@ == a,
{
    Decimal { attos: a as i128 }
}

/// A non-negative decimal as its count of attos.
pub fn decimal_to_u128(a: Decimal) -> (r: u128)
    requires
        a@ >= 0,
    ensures
        r == a@,
{
    a.attos as u128
}

/// The sum, or `Overflow` where it does not fit in a `u32`.
pub fn checked_add(a: u32, b: u32) -> (r: Result<u32, FeeReserveError>)
    ensures
        a + b <= u32::MAX ==> r == Ok::<u32, FeeReserveError>((a + b) as u32),
        a + b > u32::MAX ==> r == Err::<u32, FeeReserveError>(FeeReserveError::Overflow),
{
    match a.checked_add(b) {
        Some(v) => Ok(v),
        None => Err(FeeReserveError::Overflow),
    }
}

/// The product, or `Overflow` where the multiplier or the product does not fit in a `u32`.
pub fn checked_multiply(amount: u32, multiplier: usize) -> (r: Result<u32, FeeReserveError>)
    ensures
        amount * multiplier <= u32::MAX && multiplier <= u32::MAX ==> r == Ok::<u32, FeeReserveError>((amount * multiplier) as u32),
        !(amount * multiplier <= u32::MAX && multiplier <= u32::MAX) ==> r == Err::<u32, FeeReserveError>(FeeReserveError::Overflow),
{
    if multiplier > u32::MAX as usize {
        proof {
            if amount > 0 {
                assert(amount * multiplier >= multiplier) by (nonlinear_arith)
                    requires amount > 0, multiplier >= 0;
            }
        }
        return Err(FeeReserveError::Overflow);
    }
    let m = multiplier as u32;
    assert(m * amount == amount * multiplier) by (nonlinear_arith)
        requires m == multiplier;
    match m.checked_mul(amount) {
        Some(v) => Ok(v),
        None => Err(FeeReserveError::Overflow),
    }
}


/// Charges made before a transaction properly begins.
pub trait PreExecutionFeeReserve {
    spec fn pre_execution_wf(&self) -> bool;

    /// Records deferred execution cost units; only allowed before any other charge.
    fn consume_deferred(&mut self, amount: u32, multiplier: usize, reason: CostingReason) -> (r:
        Result<(), FeeReserveError>)
        requires
            old(self).pre_execution_wf(),
        ensures
            final(self).pre_execution_wf(),
    ;
}

/// Charges made while a transaction runs.
pub trait ExecutionFeeReserve {
    spec fn execution_wf(&self) -> bool;

    fn consume_royalty(&mut self, receiver: RoyaltyReceiver, cost_units: u32) -> (r: Result<
        (),
        FeeReserveError,
    >)
        requires
            old(self).execution_wf(),
        ensures
            final(self).execution_wf(),
    ;

    fn consume_multiplied_execution(
        &mut self,
        cost_units_per_multiple: u32,
        multiplier: usize,
        reason: CostingReason,
    ) -> (r: Result<(), FeeReserveError>)
        requires
            old(self).execution_wf(),
        ensures
            final(self).execution_wf(),
    ;

    fn consume_execution(&mut self, cost_units: u32, reason: CostingReason) -> (r: Result<
        (),
        FeeReserveError,
    >)
        requires
            old(self).execution_wf(),
        ensures
            final(self).execution_wf(),
    ;

    fn lock_fee(&mut self, vault_id: NodeId, fee: FungibleResource, contingent: bool) -> (r:
        Result<FungibleResource, FeeReserveError>)
        requires
            old(self).execution_wf(),
            fee.amount@ >= 0,
        ensures
            final(self).execution_wf(),
    ;
}

/// Closing a reserve into its summary.
pub trait FinalizingFeeReserve {
    spec fn can_finalize(&self) -> bool;

    fn finalize(self) -> FeeSummary
        requires
            self.can_finalize(),
    ;
}

/// A complete fee reserve.
pub trait FeeReserve: PreExecutionFeeReserve + ExecutionFeeReserve + FinalizingFeeReserve {

}

impl PreExecutionFeeReserve for SystemLoanFeeReserve {
    open spec fn pre_execution_wf(&self) -> bool {
        self.wf()
    }

    fn consume_deferred(&mut self, amount: u32, multiplier: usize, reason: CostingReason) -> (r:
        Result<(), FeeReserveError>) {
        SystemLoanFeeReserve::consume_deferred(self, amount, multiplier, reason)
    }
}

impl ExecutionFeeReserve for SystemLoanFeeReserve {
    open spec fn execution_wf(&self) -> bool {
        self.wf()
    }

    fn consume_royalty(&mut self, receiver: RoyaltyReceiver, cost_units: u32) -> (r: Result<
        (),
        FeeReserveError,
    >) {
        SystemLoanFeeReserve::consume_royalty(self, receiver, cost_units)
    }

    fn consume_multiplied_execution(
        &mut self,
        cost_units_per_multiple: u32,
        multiplier: usize,
        reason: CostingReason,
    ) -> (r: Result<(), FeeReserveError>) {
        SystemLoanFeeReserve::consume_multiplied_execution(
            self,
            cost_units_per_multiple,
            multiplier,
            reason,
        )
    }

    fn consume_execution(&mut self, cost_units: u32, reason: CostingReason) -> (r: Result<
        (),
        FeeReserveError,
    >) {
        SystemLoanFeeReserve::consume_execution(self, cost_units, reason)
    }

    fn lock_fee(&mut self, vault_id: NodeId, fee: FungibleResource, contingent: bool) -> (r:
        Result<FungibleResource, FeeReserveError>) {
        SystemLoanFeeReserve::lock_fee(self, vault_id, fee, contingent)
    }
}

impl FinalizingFeeReserve for SystemLoanFeeReserve {
    open spec fn can_finalize(&self) -> bool {
        &&& self.wf()
        &&& self.cost_unit_price <= i128::MAX
        &&& self.xrd_owed <= i128::MAX
        &&& self.effective_execution_price * units_sum(self.execution@) <= i128::MAX
        &&& self.effective_royalty_price * royalty_total(self.royalty@) <= i128::MAX
    }

    fn finalize(self) -> FeeSummary {
        SystemLoanFeeReserve::finalize(self)
    }
}

impl FeeReserve for SystemLoanFeeReserve {

}

} // verus!
