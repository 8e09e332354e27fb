//! Transaction processor library: applies a stream of financial transactions
//! to per-client accounts and produces a final balance report.
//!
//! The core is the per-client account state machine (deposit, withdrawal,
//! dispute, resolve, chargeback) built on the exact decimal amount type of
//! [`numeric`]. Every operation is atomic: on any failure the account is
//! left unchanged.

use vstd::prelude::*;
use std::collections::{BTreeMap, HashMap, HashSet};

use crate::numeric::{CurrencyAmount, CurrencyError};

pub mod args;
pub mod csv;
pub mod numeric;

verus! {

/// A client identifier.
pub type ClientId = u16;

/// A transaction identifier.
pub type TransactionId = u32;

/// Error returned when a transaction could not be applied to an account.
#[derive(Clone, Debug, Eq, PartialEq)]
pub enum TransactionError {
    /// The specified transaction does not exist for this user.
    TransactionDoesNotExist(TransactionId),
    /// Cannot create a transaction with this ID, as it already exists
    /// for this user.
    TransactionAlreadyExists(TransactionId),
    /// This transaction is already disputed for this user.
    DisputeAlreadyExists(TransactionId),
    /// This dispute cannot be resolved as the transaction is not disputed.
    DisputeDoesNotExist(TransactionId),
    /// An arithmetic error occurred (overflow/underflow) when calculating the
    /// account balances.
    CurrencyError(CurrencyError),
    /// This account is locked and cannot deposit/withdraw money.
    AccountIsLocked,
    /// This withdrawal would take the account balance below zero.
    NotEnoughFunds,
}

impl From<CurrencyError> for TransactionError {
    fn from(err: CurrencyError) -> (r: Self) {
        TransactionError::CurrencyError(err)
    }
}

impl vstd::std_specs::convert::FromSpecImpl<CurrencyError> for TransactionError {
    open spec fn obeys_from_spec() -> bool {
        true
    }

    open spec fn from_spec(err: CurrencyError) -> Self {
        TransactionError::CurrencyError(err)
    }
}

/// The two ways an existing dispute can be settled.
#[derive(Clone, Copy, Debug)]
pub enum DisputeResolution {
    /// Returns the held funds to the available balance.
    Resolve,
    /// Removes the held funds permanently and locks the account.
    Chargeback,
}

/// A per-client ledger: balances, the signed history of recorded
/// transactions, the set of active disputes, and the lock flag.
pub struct ClientAccount {
    available: CurrencyAmount,
    held: CurrencyAmount,
    /// Positive CurrencyAmount for a deposit, negative for a withdrawal.
    transactions: HashMap<TransactionId, CurrencyAmount>,
    active_disputes: HashSet<TransactionId>,
    locked: bool,
}

impl ClientAccount {
    /// The available balance.
    pub closed spec fn spec_available(self) -> CurrencyAmount {
        self.available
    }

    /// The held (disputed) balance.
    pub closed spec fn spec_held(self) -> CurrencyAmount {
        self.held
    }

    /// Whether the account is locked by a prior chargeback.
    pub closed spec fn spec_locked(self) -> bool {
        self.locked
    }

    /// The recorded history: transaction id to its signed amount.
    pub closed spec fn spec_records(self) -> Map<TransactionId, CurrencyAmount> {
        self.transactions@
    }

    /// The transaction ids currently under dispute.
    pub closed spec fn spec_disputes(self) -> Set<TransactionId> {
        self.active_disputes@
    }

    /// Well-formedness: the balances and every recorded amount are valid,
    /// and every disputed transaction id is recorded.
    pub closed spec fn wf(self) -> bool {
        &&& self.available.wf()
        &&& self.held.wf()
        &&& forall|tx: TransactionId|
            self.transactions@.contains_key(tx) ==> (#[trigger] self.transactions@[tx]).wf()
        &&& self.active_disputes@.subset_of(self.transactions@.dom())
    }

    /// What `deposit` does: fails when the account is locked, when the id
    /// is already recorded, or when the new available balance is out of
    /// range or negative, the checks in that order; otherwise records the
    /// amount under `tx` and raises the available balance. The account is
    /// unchanged on every failure.
    pub closed spec fn deposit_rel(
        pre: Self,
        post: Self,
        tx: TransactionId,
        amount: CurrencyAmount,
        r: Result<(), TransactionError>,
    ) -> bool {
        let na = pre.available.spec_add(amount);
        if pre.locked {
            r == Err::<(), TransactionError>(TransactionError::AccountIsLocked) && post == pre
        } else if pre.transactions@.contains_key(tx) {
            r == Err::<(), TransactionError>(TransactionError::TransactionAlreadyExists(tx))
                && post == pre
        } else if na is None {
            r == Err::<(), TransactionError>(
                TransactionError::CurrencyError(CurrencyError::OutOfBounds),
            ) && post == pre
        } else if na->Some_0.units() < 0 {
            r == Err::<(), TransactionError>(TransactionError::NotEnoughFunds) && post == pre
        } else {
            &&& r == Ok::<(), TransactionError>(())
            &&& post.available == na->Some_0
            &&& post.held == pre.held
            &&& post.locked == pre.locked
            &&& post.transactions@ == pre.transactions@.insert(tx, amount)
            &&& post.active_disputes@ == pre.active_disputes@
        }
    }

    /// What `create_dispute` does: fails when `tx` is unrecorded, when
    /// moving its amount between the balances leaves the representable
    /// range, or when `tx` is already disputed; otherwise moves the recorded
    /// amount from available to held and marks `tx` disputed. The account is
    /// unchanged on every failure.
    pub closed spec fn dispute_rel(
        pre: Self,
        post: Self,
        tx: TransactionId,
        r: Result<(), TransactionError>,
    ) -> bool {
        if !pre.transactions@.contains_key(tx) {
            r == Err::<(), TransactionError>(TransactionError::TransactionDoesNotExist(tx)) && post
                == pre
        } else {
            let amount = pre.transactions@[tx];
            let nh = pre.held.spec_add(amount);
            let na = pre.available.spec_sub(amount);
            if nh is None || na is None {
                r == Err::<(), TransactionError>(
                    TransactionError::CurrencyError(CurrencyError::OutOfBounds),
                ) && post == pre
            } else if pre.active_disputes@.contains(tx) {
                r == Err::<(), TransactionError>(TransactionError::DisputeAlreadyExists(tx)) && post
                    == pre
            } else {
                &&& r == Ok::<(), TransactionError>(())
                &&& post.available == na->Some_0
                &&& post.held == nh->Some_0
                &&& post.locked == pre.locked
                &&& post.transactions@ == pre.transactions@
                &&& post.active_disputes@ == pre.active_disputes@.insert(tx)
            }
        }
    }

    /// What `resolve_dispute` does: fails when `tx` is unrecorded, when the
    /// arithmetic leaves the representable range, or when `tx` is not
    /// disputed. A `Resolve` moves the amount back from held to available; a
    /// `Chargeback` drops it from held, deletes the record (so `tx` can
    /// never be disputed again) and locks the account. The account is
    /// unchanged on every failure.
    pub closed spec fn resolve_rel(
        pre: Self,
        post: Self,
        tx: TransactionId,
        resolution: DisputeResolution,
        r: Result<(), TransactionError>,
    ) -> bool {
        if !pre.transactions@.contains_key(tx) {
            r == Err::<(), TransactionError>(TransactionError::TransactionDoesNotExist(tx)) && post
                == pre
        } else {
            let amount = pre.transactions@[tx];
            let nh = pre.held.spec_sub(amount);
            let na = if resolution is Resolve {
                pre.available.spec_add(amount)
            } else {
                Some(pre.available)
            };
            if nh is None || na is None {
                r == Err::<(), TransactionError>(
                    TransactionError::CurrencyError(CurrencyError::OutOfBounds),
                ) && post == pre
            } else if !pre.active_disputes@.contains(tx) {
                r == Err::<(), TransactionError>(TransactionError::DisputeDoesNotExist(tx)) && post
                    == pre
            } else {
                &&& r == Ok::<(), TransactionError>(())
                &&& post.available == na->Some_0
                &&& post.held == nh->Some_0
                &&& post.active_disputes@ == pre.active_disputes@.remove(tx)
                &&& if resolution is Chargeback {
                    post.transactions@ == pre.transactions@.remove(tx) && post.locked
                } else {
                    post.transactions@ == pre.transactions@ && post.locked == pre.locked
                }
            }
        }
    }

    /// A fresh account: zero balances, no history, no disputes, unlocked.
    pub fn new() -> (r: Self)
        ensures
            r.wf(),
            r.spec_available().units() == 0,
            r.spec_held().units() == 0,
            r.spec_available() == CurrencyAmount::spec_zero(),
            r.spec_held() == CurrencyAmount::spec_zero(),
            !r.spec_locked(),
            r.spec_records() == Map::<TransactionId, CurrencyAmount>::empty(),
            r.spec_disputes() == Set::<TransactionId>::empty(),
    {
        ClientAccount {
            available: CurrencyAmount::zero(),
            held: CurrencyAmount::zero(),
            transactions: HashMap::new(),
            active_disputes: HashSet::new(),
            locked: false,
        }
    }

    /// The sum of the available and held balances, when representable.
    pub closed spec fn spec_total(self) -> Option<CurrencyAmount> {
        self.available.spec_add(self.held)
    }

    /// The total funds: available plus held, computed at call time.
    pub fn total(&self) -> (r: Result<CurrencyAmount, CurrencyError>)
        requires
            self.wf(),
        ensures
            self.spec_total() matches Some(c) ==> r == Ok::<CurrencyAmount, CurrencyError>(c),
            self.spec_total() is None ==> r == Err::<CurrencyAmount, CurrencyError>(
                CurrencyError::OutOfBounds,
            ),
    {
        self.available.checked_add(self.held)
    }

    /// Increases the available funds by the specified amount and records it,
    /// atomically; see [`Self::deposit_rel`] for the exact outcome.
    pub fn deposit(&mut self, tx: TransactionId, amount: CurrencyAmount) -> (r: Result<
        (),
        TransactionError,
    >)
        requires
            old(self).wf(),
            amount.wf(),
        ensures
            final(self).wf(),
            Self::deposit_rel(*old(self), *final(self), tx, amount, r),
            r is Err ==> *final(self) == *old(self),
    {
        if self.locked {
            return Err(TransactionError::AccountIsLocked);
        }
        if self.transactions.contains_key(&tx) {
            return Err(TransactionError::TransactionAlreadyExists(tx));
        }
        let new_available = match self.available.checked_add(amount) {
            Ok(v) => v,
            Err(e) => {
                return Err(TransactionError::CurrencyError(e));
            },
        };
        if new_available.is_negative() {
            return Err(TransactionError::NotEnoughFunds);
        }
        self.transactions.insert(tx, amount);
        self.available = new_available;
        Ok(())
    }

    /// Reduces the available funds by the specified amount: a deposit of the
    /// negated amount, so a withdrawal's recorded effect is distinguishable
    /// from a deposit's by sign alone.
    pub fn withdraw(&mut self, tx: TransactionId, amount: CurrencyAmount) -> (r: Result<
        (),
        TransactionError,
    >)
        requires
            old(self).wf(),
            amount.wf(),
        ensures
            final(self).wf(),
            Self::deposit_rel(*old(self), *final(self), tx, amount.spec_neg(), r),
            r is Err ==> *final(self) == *old(self),
    {
        let neg = amount.neg();
        self.deposit(tx, neg)
    }

    /// Disputes the specified recorded transaction, moving its value from
    /// the available funds to the held funds, atomically; see
    /// [`Self::dispute_rel`] for the exact outcome.
    pub fn create_dispute(&mut self, tx: TransactionId) -> (r: Result<(), TransactionError>)
        requires
            old(self).wf(),
        ensures
            final(self).wf(),
            Self::dispute_rel(*old(self), *final(self), tx, r),
            r is Err ==> *final(self) == *old(self),
    {
        let amount = match self.transactions.get(&tx) {
            Some(a) => *a,
            None => {
                return Err(TransactionError::TransactionDoesNotExist(tx));
            },
        };
        let new_held = match self.held.checked_add(amount) {
            Ok(v) => v,
            Err(e) => {
                return Err(TransactionError::CurrencyError(e));
            },
        };
        let new_available = match self.available.checked_sub(amount) {
            Ok(v) => v,
            Err(e) => {
                return Err(TransactionError::CurrencyError(e));
            },
        };
        if self.active_disputes.contains(&tx) {
            return Err(TransactionError::DisputeAlreadyExists(tx));
        }
        self.active_disputes.insert(tx);
        self.held = new_held;
        self.available = new_available;
        Ok(())
    }

    /// Settles an existing dispute in the specified manner, atomically; see
    /// [`Self::resolve_rel`] for the exact outcome.
    pub fn resolve_dispute(&mut self, tx: TransactionId, resolution: DisputeResolution) -> (r:
        Result<(), TransactionError>)
        requires
            old(self).wf(),
        ensures
            final(self).wf(),
            Self::resolve_rel(*old(self), *final(self), tx, resolution, r),
            r is Err ==> *final(self) == *old(self),
    {
        let amount = match self.transactions.get(&tx) {
            Some(a) => *a,
            None => {
                return Err(TransactionError::TransactionDoesNotExist(tx));
            },
        };
        let new_held = match self.held.checked_sub(amount) {
            Ok(v) => v,
            Err(e) => {
                return Err(TransactionError::CurrencyError(e));
            },
        };
        let new_available = match resolution {
            DisputeResolution::Resolve => match self.available.checked_add(amount) {
                Ok(v) => v,
                Err(e) => {
                    return Err(TransactionError::CurrencyError(e));
                },
            },
            DisputeResolution::Chargeback => self.available,
        };
        if !self.active_disputes.contains(&tx) {
            return Err(TransactionError::DisputeDoesNotExist(tx));
        }
        self.active_disputes.remove(&tx);
        if matches!(resolution, DisputeResolution::Chargeback) {
            // Ensure that this transaction cannot be disputed again.
            self.transactions.remove(&tx);
            self.locked = true;
        }
        self.held = new_held;
        self.available = new_available;
        Ok(())
    }
}

/// Law: a deposit followed by a withdrawal of the identical amount, under a
/// fresh transaction id, succeeds and returns the available and held
/// balances to their pre-deposit values, leaving the account unlocked.
pub proof fn lemma_deposit_withdraw_cancel(
    pre: ClientAccount,
    mid: ClientAccount,
    post: ClientAccount,
    tx1: TransactionId,
    tx2: TransactionId,
    amount: CurrencyAmount,
    r1: Result<(), TransactionError>,
    r2: Result<(), TransactionError>,
)
    requires
        pre.wf(),
        amount.wf(),
        pre.spec_available().units() >= 0,
        tx2 != tx1,
        !pre.spec_records().contains_key(tx2),
        ClientAccount::deposit_rel(pre, mid, tx1, amount, r1),
        r1 is Ok,
        ClientAccount::deposit_rel(mid, post, tx2, amount.spec_neg(), r2),
    ensures
        r2 is Ok,
        post.spec_available().units() == pre.spec_available().units(),
        post.spec_held() == pre.spec_held(),
        !post.spec_locked(),
{
    CurrencyAmount::lemma_add_then_sub(pre.spec_available(), amount);
    CurrencyAmount::lemma_spec_neg_props(amount);
    assert(mid.spec_available() == pre.spec_available().spec_add(amount)->Some_0);
    assert(mid.spec_available().spec_add(amount.spec_neg()) is Some);
    assert(mid.spec_available().spec_add(amount.spec_neg())->Some_0.units()
        == pre.spec_available().units());
}

/// Law: a successful dispute only moves funds between the two balances:
/// the sum of available and held is unchanged.
pub proof fn lemma_dispute_preserves_total(
    pre: ClientAccount,
    post: ClientAccount,
    tx: TransactionId,
    r: Result<(), TransactionError>,
)
    requires
        pre.wf(),
        ClientAccount::dispute_rel(pre, post, tx, r),
        r is Ok,
    ensures
        post.spec_available().units() + post.spec_held().units() == pre.spec_available().units()
            + pre.spec_held().units(),
{
    let amount = pre.spec_records()[tx];
    assert(amount.wf());
    pre.spec_held().lemma_spec_add_props(amount);
    pre.spec_available().lemma_spec_sub_props(amount);
}

/// Law: after a chargeback settles the dispute on `tx`, disputing `tx`
/// again fails with `TransactionDoesNotExist`, because the record was
/// deleted; the failed dispute leaves the account unchanged.
pub proof fn lemma_chargeback_bars_redispute(
    pre: ClientAccount,
    mid: ClientAccount,
    post: ClientAccount,
    tx: TransactionId,
    r1: Result<(), TransactionError>,
    r2: Result<(), TransactionError>,
)
    requires
        ClientAccount::resolve_rel(pre, mid, tx, DisputeResolution::Chargeback, r1),
        r1 is Ok,
        ClientAccount::dispute_rel(mid, post, tx, r2),
    ensures
        r2 == Err::<(), TransactionError>(TransactionError::TransactionDoesNotExist(tx)),
        post == mid,
{
}

/// A description of a specific client account in a generated report.
#[derive(Clone, Debug, PartialEq)]
pub struct ReportEntry {
    /// The ID of the client.
    pub client: ClientId,
    /// The amount of available funds.
    pub available: CurrencyAmount,
    /// The amount of held (i.e. disputed) funds.
    pub held: CurrencyAmount,
    /// The sum of the available and held funds.
    pub total: CurrencyAmount,
    /// Whether the account is locked.
    pub locked: bool,
}

/// The type of a transaction, and associated data where relevant.
#[derive(Clone, Debug, PartialEq)]
pub enum TransactionType {
    /// Increases the available funds by the specified amount.
    Deposit {
        /// The amount by which to increase the available funds.
        amount: CurrencyAmount,
    },
    /// Reduces the available funds by the specified amount.
    Withdrawal {
        /// The amount by which to decrease the available funds.
        amount: CurrencyAmount,
    },
    /// Disputes the specified transaction in the user's account, moving its
    /// value from the available funds to the held funds.
    Dispute,
    /// Resolves a dispute, moving the previously held funds back into
    /// the available balance.
    Resolve,
    /// Performs a chargeback, removing the funds from the held balance,
    /// and locking the account. The transaction cannot be disputed again.
    Chargeback,
}

impl TransactionType {
    /// An attached amount, where the variant carries one, is well formed.
    pub open spec fn wf(self) -> bool {
        match self {
            TransactionType::Deposit { amount } => amount.wf(),
            TransactionType::Withdrawal { amount } => amount.wf(),
            _ => true,
        }
    }
}

/// A struct representing a transaction.
#[derive(Clone, Debug, PartialEq)]
pub struct Transaction {
    client: ClientId,
    tx: TransactionId,
    transaction_type: TransactionType,
}

impl Transaction {
    /// The client account which the transaction applies to.
    pub closed spec fn spec_client(self) -> ClientId {
        self.client
    }

    /// The transaction ID: new for deposits and withdrawals, that of an
    /// existing transaction for disputes, resolutions and chargebacks.
    pub closed spec fn spec_tx(self) -> TransactionId {
        self.tx
    }

    /// The type of the transaction, and associated data where relevant.
    pub closed spec fn spec_transaction_type(self) -> TransactionType {
        self.transaction_type
    }

    /// The transaction with the given parts.
    pub closed spec fn spec_new(
        client: ClientId,
        tx: TransactionId,
        transaction_type: TransactionType,
    ) -> Transaction {
        Transaction { client, tx, transaction_type }
    }

    /// Creates a new [`Transaction`] instance.
    pub fn new(client: ClientId, tx: TransactionId, transaction_type: TransactionType) -> (r: Self)
        ensures
            r == Self::spec_new(client, tx, transaction_type),
            r.spec_client() == client,
            r.spec_tx() == tx,
            r.spec_transaction_type() == transaction_type,
    {
        Transaction { client, tx, transaction_type }
    }
}

/// The row the report holds for client `k` with account state `a`.
pub closed spec fn spec_report_entry(k: ClientId, a: ClientAccount) -> ReportEntry {
    ReportEntry {
        client: k,
        available: a.spec_available(),
        held: a.spec_held(),
        total: a.spec_total()->Some_0,
        locked: a.spec_locked(),
    }
}

/// Transaction processor main struct. Processes a stream of transactions
/// provided using [`TransactionProcessor::transact`], and then generates
/// a report on the final state of all accounts using
/// [`TransactionProcessor::generate_report`].
pub struct TransactionProcessor {
    clients: BTreeMap<ClientId, ClientAccount>,
    // The known client ids in ascending order, for deterministic reporting.
    order: Vec<ClientId>,
}

impl TransactionProcessor {
    /// The accounts, by client id.
    pub closed spec fn spec_clients(self) -> Map<ClientId, ClientAccount> {
        self.clients@
    }

    /// Every account is well formed, and the order vector lists exactly the
    /// known client ids, strictly ascending.
    pub closed spec fn wf(self) -> bool {
        &&& forall|k: ClientId|
            self.clients@.contains_key(k) ==> (#[trigger] self.clients@[k]).wf()
        &&& forall|i: int, j: int|
            0 <= i < j < self.order@.len() ==> self.order@[i] < self.order@[j]
        &&& forall|i: int|
            0 <= i < self.order@.len() ==> self.clients@.contains_key(#[trigger] self.order@[i])
        &&& forall|k: ClientId| self.clients@.contains_key(k) ==> self.order@.contains(k)
    }

    /// What `transact` does to the account the transaction addresses: the
    /// account (a fresh one when the client was unknown) moves by the
    /// operation the payload selects, and the call returns that operation's
    /// result.
    pub open spec fn transact_rel(
        pre: ClientAccount,
        post: ClientAccount,
        t: Transaction,
        r: Result<(), TransactionError>,
    ) -> bool {
        match t.spec_transaction_type() {
            TransactionType::Deposit { amount } => ClientAccount::deposit_rel(
                pre,
                post,
                t.spec_tx(),
                amount,
                r,
            ),
            TransactionType::Withdrawal { amount } => ClientAccount::deposit_rel(
                pre,
                post,
                t.spec_tx(),
                amount.spec_neg(),
                r,
            ),
            TransactionType::Dispute => ClientAccount::dispute_rel(pre, post, t.spec_tx(), r),
            TransactionType::Resolve => ClientAccount::resolve_rel(
                pre,
                post,
                t.spec_tx(),
                DisputeResolution::Resolve,
                r,
            ),
            TransactionType::Chargeback => ClientAccount::resolve_rel(
                pre,
                post,
                t.spec_tx(),
                DisputeResolution::Chargeback,
                r,
            ),
        }
    }

    /// What a freshly created account looks like: zero balances, no
    /// history, no disputes, unlocked.
    pub open spec fn fresh_account(a: ClientAccount) -> bool {
        &&& a.spec_available() == CurrencyAmount::spec_zero()
        &&& a.spec_held() == CurrencyAmount::spec_zero()
        &&& !a.spec_locked()
        &&& a.spec_records() == Map::<TransactionId, CurrencyAmount>::empty()
        &&& a.spec_disputes() == Set::<TransactionId>::empty()
    }

    /// Creates a new instance of [`TransactionProcessor`] with no client
    /// accounts.
    pub fn new() -> (r: Self)
        ensures
            r.wf(),
            r.spec_clients() == Map::<ClientId, ClientAccount>::empty(),
    {
        TransactionProcessor { clients: BTreeMap::new(), order: Vec::new() }
    }

    /// Adds an unknown client id to the order vector, keeping it sorted.
    fn register_client(&mut self, client: ClientId)
        requires
            old(self).wf(),
            !old(self).spec_clients().contains_key(client),
        ensures
            final(self).clients == old(self).clients,
            forall|i: int, j: int|
                0 <= i < j < final(self).order@.len()
                    ==> final(self).order@[i] < final(self).order@[j],
            forall|i: int|
                0 <= i < final(self).order@.len() ==> (#[trigger] final(self).order@[i]) == client
                    || old(self).order@.contains(final(self).order@[i]),
            final(self).order@.contains(client),
            forall|k: ClientId|
                old(self).order@.contains(k) ==> final(self).order@.contains(k),
    {
        let n = self.order.len();
        let mut pos: usize = 0;
        #[verifier::loop_isolation(false)]
        while pos < n && self.order[pos] < client
            invariant
                0 <= pos <= n,
                forall|q: int| 0 <= q < pos ==> (#[trigger] self.order@[q]) < client,
            decreases n - pos,
        {
            pos = pos + 1;
        }
        proof {
            // the id is new, so wherever the scan stopped, what follows is larger
            assert forall|q: int| pos <= q < self.order@.len() implies client < (
            #[trigger] self.order@[q]) by {
                assert(self.order@[q] != client) by {
                    if self.order@[q] == client {
                        assert(self.clients@.contains_key(self.order@[q]));
                    }
                }
                if q > pos {
                    assert(self.order@[pos as int] < self.order@[q]);
                    assert(self.order@[pos as int] != client);
                }
            }
        }
        let ghost before = self.order@;
        self.order.insert(pos, client);
        proof {
            let after = self.order@;
            assert(after == before.insert(pos as int, client));
            assert forall|i: int, j: int| 0 <= i < j < after.len() implies after[i] < after[j] by {
                if j < pos {
                } else if i >= pos + 1 {
                    assert(after[i] == before[i - 1] && after[j] == before[j - 1]);
                } else if i < pos && j == pos {
                    assert(after[i] == before[i] && after[j] == client);
                } else if i == pos {
                    assert(after[i] == client && after[j] == before[j - 1]);
                } else {
                    assert(after[i] == before[i] && after[j] == before[j - 1]);
                }
            }
            assert(after[pos as int] == client);
            assert forall|k: ClientId| before.contains(k) implies after.contains(k) by {
                let q = choose|q: int| 0 <= q < before.len() && before[q] == k;
                if q < pos {
                    assert(after[q] == k);
                } else {
                    assert(after[q + 1] == k);
                }
            }
            assert forall|i: int| 0 <= i < after.len() implies (#[trigger] after[i]) == client
                || before.contains(after[i]) by {
                if i < pos {
                    assert(after[i] == before[i]);
                } else if i > pos {
                    assert(after[i] == before[i - 1]);
                }
            }
        }
    }

    /// Attempts to apply the specified transaction. If the client account
    /// referenced by the transaction does not exist, it is created first.
    /// Transactions apply atomically: on an error nothing changes, and only
    /// the addressed client's account ever changes.
    #[verifier::rlimit(60)]
    pub fn transact(&mut self, transaction: &Transaction) -> (r: Result<(), TransactionError>)
        requires
            old(self).wf(),
            transaction.spec_transaction_type().wf(),
        ensures
            final(self).wf(),
            final(self).spec_clients().contains_key(transaction.spec_client()),
            final(self).spec_clients() == old(self).spec_clients().insert(
                transaction.spec_client(),
                final(self).spec_clients()[transaction.spec_client()],
            ),
            old(self).spec_clients().contains_key(transaction.spec_client())
                ==> Self::transact_rel(
                old(self).spec_clients()[transaction.spec_client()],
                final(self).spec_clients()[transaction.spec_client()],
                *transaction,
                r,
            ),
            !old(self).spec_clients().contains_key(transaction.spec_client()) ==> exists|
                pre: ClientAccount,
            |
                Self::fresh_account(pre) && pre.wf() && #[trigger] Self::transact_rel(
                    pre,
                    final(self).spec_clients()[transaction.spec_client()],
                    *transaction,
                    r,
                ),
    {
        let mut account = match self.clients.remove(&transaction.client) {
            Some(a) => a,
            None => {
                proof {
                    assert(self.clients@ =~= old(self).clients@);
                }
                self.register_client(transaction.client);
                ClientAccount::new()
            },
        };
        let ghost pre_acct = account;
        let result = match &transaction.transaction_type {
            TransactionType::Deposit { amount } => account.deposit(transaction.tx, *amount),
            TransactionType::Withdrawal { amount } => account.withdraw(transaction.tx, *amount),
            TransactionType::Dispute => account.create_dispute(transaction.tx),
            TransactionType::Resolve => account.resolve_dispute(
                transaction.tx,
                DisputeResolution::Resolve,
            ),
            TransactionType::Chargeback => account.resolve_dispute(
                transaction.tx,
                DisputeResolution::Chargeback,
            ),
        };
        self.clients.insert(transaction.client, account);
        proof {
            let k = transaction.spec_client();
            assert(self.clients@.contains_key(k));
            assert(self.clients@[k] == account);
            assert(self.clients@ =~= old(self).clients@.insert(k, account));
            assert(self.clients@ == old(self).clients@.insert(k, self.clients@[k]));
            assert(Self::transact_rel(pre_acct, account, *transaction, result));
            assert forall|k2: ClientId| self.clients@.contains_key(k2) implies self.order@.contains(
                k2,
            ) by {
                if k2 != k {
                    assert(old(self).clients@.contains_key(k2));
                }
            }
            assert forall|i: int|
                0 <= i < self.order@.len() implies self.clients@.contains_key(
                #[trigger] self.order@[i]) by {
                if self.order@[i] != k {
                    assert(old(self).order@.contains(self.order@[i]) ==> old(
                        self,
                    ).clients@.contains_key(self.order@[i])) by {
                        if old(self).order@.contains(self.order@[i]) {
                            let q = choose|q: int|
                                0 <= q < old(self).order@.len() && old(self).order@[q]
                                    == self.order@[i];
                            assert(old(self).clients@.contains_key(old(self).order@[q]));
                        }
                    }
                }
            }
            if !old(self).spec_clients().contains_key(k) {
                assert(Self::fresh_account(pre_acct) && pre_acct.wf() && Self::transact_rel(
                    pre_acct,
                    self.spec_clients()[k],
                    *transaction,
                    result,
                ));
            }
        }
        result
    }
}

impl TransactionProcessor {
    /// Generates a report of the state of all client accounts, ordered by
    /// ascending client id; a client whose total cannot be computed without
    /// leaving the representable range is left out, and nothing else is.
    pub fn generate_report(&self) -> (r: Vec<ReportEntry>)
        requires
            self.wf(),
        ensures
            forall|i: int|
                0 <= i < r@.len() ==> {
                    let e = #[trigger] r@[i];
                    &&& self.spec_clients().contains_key(e.client)
                    &&& self.spec_clients()[e.client].spec_total() is Some
                    &&& e == spec_report_entry(e.client, self.spec_clients()[e.client])
                },
            forall|i: int, j: int|
                0 <= i < j < r@.len() ==> (#[trigger] r@[i]).client < (#[trigger] r@[j]).client,
            forall|k: ClientId|
                self.spec_clients().contains_key(k) && (#[trigger] self.spec_clients()[k]).spec_total() is Some
                    ==> exists|i: int| 0 <= i < r@.len() && (#[trigger] r@[i]).client == k,
    {
        let n = self.order.len();
        let mut out: Vec<ReportEntry> = Vec::new();
        let mut j: usize = 0;
        #[verifier::loop_isolation(false)]
        while j < n
            invariant
                0 <= j <= n,
                forall|i: int|
                    0 <= i < out@.len() ==> {
                        let e = #[trigger] out@[i];
                        &&& self.spec_clients().contains_key(e.client)
                        &&& self.spec_clients()[e.client].spec_total() is Some
                        &&& e == spec_report_entry(e.client, self.spec_clients()[e.client])
                    },
                forall|i: int|
                    0 <= i < out@.len() ==> exists|q: int|
                        0 <= q < j && (#[trigger] out@[i]).client == self.order@[q],
                forall|i1: int, i2: int|
                    0 <= i1 < i2 < out@.len() ==> (#[trigger] out@[i1]).client < (#[trigger] out@[i2]).client,
                forall|q: int|
                    0 <= q < j && (#[trigger] self.spec_clients()[self.order@[q]]).spec_total() is Some ==> exists|i: int|
                        0 <= i < out@.len() && (#[trigger] out@[i]).client == self.order@[q],
            decreases n - j,
        {
            let k: ClientId = self.order[j];
            proof {
                assert(self.clients@.contains_key(self.order@[j as int]));
            }
            match self.clients.get(&k) {
                Some(acct) => {
                    let ghost out0 = out@;
                    match acct.total() {
                        Ok(total) => {
                            out.push(
                                ReportEntry {
                                    client: k,
                                    available: acct.available,
                                    held: acct.held,
                                    total,
                                    locked: acct.locked,
                                },
                            );
                            proof {
                                assert forall|q: int|
                                    0 <= q < j + 1 && (#[trigger] self.spec_clients()[
                                        self.order@[q]
                                    ]).spec_total() is Some implies exists|i: int|
                                    0 <= i < out@.len() && (#[trigger] out@[i]).client
                                        == self.order@[q] by {
                                    if q == j {
                                        assert(out@[out@.len() - 1].client == self.order@[q]);
                                    } else {
                                        let i0 = choose|i: int|
                                            0 <= i < out0.len() && (#[trigger] out0[i]).client
                                                == self.order@[q];
                                        assert(out@[i0].client == self.order@[q]);
                                    }
                                }
                            }
                        },
                        Err(_) => {},
                    }
                },
                None => {
                    proof {
                        assert(false);
                    }
                },
            }
            j = j + 1;
        }
        proof {
            assert forall|k: ClientId|
                self.spec_clients().contains_key(k) && (#[trigger] self.spec_clients()[k]).spec_total() is Some implies exists|i: int|
                0 <= i < out@.len() && (#[trigger] out@[i]).client == k by {
                assert(self.order@.contains(k));
                let q = choose|q: int| 0 <= q < self.order@.len() && self.order@[q] == k;
                assert(self.order@[q] == k);
                assert(self.spec_clients()[self.order@[q]].spec_total() is Some);
            }
        }
        out
    }

    /// Convenience method returning the same report as
    /// [`TransactionProcessor::generate_report`].
    pub fn generate_report_as_vec(&self) -> (r: Vec<ReportEntry>)
        requires
            self.wf(),
        ensures
            forall|i: int|
                0 <= i < r@.len() ==> {
                    let e = #[trigger] r@[i];
                    &&& self.spec_clients().contains_key(e.client)
                    &&& self.spec_clients()[e.client].spec_total() is Some
                    &&& e == spec_report_entry(e.client, self.spec_clients()[e.client])
                },
            forall|i: int, j: int|
                0 <= i < j < r@.len() ==> (#[trigger] r@[i]).client < (#[trigger] r@[j]).client,
            forall|k: ClientId|
                self.spec_clients().contains_key(k) && (#[trigger] self.spec_clients()[k]).spec_total() is Some
                    ==> exists|i: int| 0 <= i < r@.len() && (#[trigger] r@[i]).client == k,
    {
        self.generate_report()
    }
}

} // verus!
