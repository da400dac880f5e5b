//! The mathematical model of the contract's ledger state: what each
//! operation refuses, what it leaves behind, and what the contract holds.
use vstd::prelude::*;

use crate::amounts::{all_positive, distinct_payers, is_payer, paid_by, sum_amounts, valid_votes, without_address};
use crate::invoice::{lemma_net_inflow_one_token, net_inflow, net_inflow_in, token_of};
use crate::types::{Address, InvoiceModel, InvoiceStatus, SplitError, Transfer};

verus! {

/// How far a successful vote pushes the deadline back: seven days.
pub const DEADLINE_EXTENSION_SECS: u64 = 7 * 24 * 60 * 60;

/// The mathematical value of the contract's ledger state.
#[verifier::ext_equal]
pub struct ContractModel {
    /// The last invoice ID handed out.
    pub counter: u64,
    /// The stored invoices by ID.
    pub invoices: Map<u64, InvoiceModel>,
    /// The pending deadline-extension votes by invoice ID.
    pub votes: Map<u64, Seq<Address>>,
}

/// The invoice that `create_invoice` stores.
pub open spec fn new_invoice(
    creator: Address,
    co_creators: Seq<Address>,
    recipients: Seq<Address>,
    amounts: Seq<i128>,
    token: Address,
    deadline: u64,
    allow_early_withdrawal: bool,
) -> InvoiceModel {
    InvoiceModel {
        creator,
        co_creators,
        recipients,
        amounts,
        token,
        deadline,
        funded: 0,
        status: InvoiceStatus::Pending,
        payments: Seq::empty(),
        allow_early_withdrawal,
    }
}

impl ContractModel {
    /// Every stored invoice has an ID that was handed out and is consistent,
    /// and votes are only kept for stored invoices, each voter once and only
    /// voters that are payers of the invoice.
    pub open spec fn wf(self) -> bool {
        &&& forall|id: u64| #[trigger]
            self.invoices.contains_key(id) ==> 1 <= id <= self.counter && self.invoices[id].wf()
        &&& forall|id: u64| #[trigger]
            self.votes.contains_key(id) ==> self.invoices.contains_key(id) && valid_votes(
                self.votes[id],
                self.invoices[id].payments,
            )
    }

    /// The state with invoice `id` replaced.
    pub open spec fn with_invoice(self, id: u64, inv: InvoiceModel) -> ContractModel {
        ContractModel { invoices: self.invoices.insert(id, inv), ..self }
    }

    /// What the contract holds for invoice `id`.
    pub open spec fn held(self, id: u64) -> int {
        if self.invoices.contains_key(id) {
            self.invoices[id].held()
        } else {
            0
        }
    }

    /// The votes recorded for invoice `id`; none where nothing is stored.
    pub open spec fn votes_for(self, id: u64) -> Seq<Address> {
        if self.votes.contains_key(id) {
            self.votes[id]
        } else {
            Seq::empty()
        }
    }

    /// What the contract holds in `token` for invoice `id`.
    pub open spec fn held_by(self, token: Address, id: u64) -> int {
        if self.invoices.contains_key(id) && self.invoices[id].token == token {
            self.invoices[id].held()
        } else {
            0
        }
    }

    /// What the contract holds in `token` for the invoices with IDs 1 to `n`.
    pub open spec fn held_upto(self, token: Address, n: nat) -> int
        decreases n,
    {
        if n == 0 {
            0
        } else {
            self.held_upto(token, (n - 1) as nat) + self.held_by(token, n as u64)
        }
    }

    /// What the contract holds in `token` for all its invoices: the funds of
    /// the pending ones.
    pub open spec fn held_in(self, token: Address) -> int {
        self.held_upto(token, self.counter as nat)
    }

    /// Why `create_invoice` refuses, if it does.
    pub open spec fn create_error(
        self,
        recipients: Seq<Address>,
        amounts: Seq<i128>,
        deadline: u64,
        now: u64,
    ) -> Option<SplitError> {
        if recipients.len() != amounts.len() {
            Some(SplitError::LengthMismatch)
        } else if recipients.len() == 0 {
            Some(SplitError::NoRecipients)
        } else if deadline <= now {
            Some(SplitError::DeadlineNotInFuture)
        } else if !all_positive(amounts) {
            Some(SplitError::NonPositiveAmount)
        } else if self.counter == u64::MAX || sum_amounts(amounts) > i128::MAX {
            Some(SplitError::ArithmeticOverflow)
        } else {
            None
        }
    }

    /// Why `pay` refuses, if it does.
    pub open spec fn pay_error(self, id: u64, amount: i128, now: u64) -> Option<SplitError> {
        if !self.invoices.contains_key(id) {
            Some(SplitError::InvoiceNotFound)
        } else if self.invoices[id].status != InvoiceStatus::Pending {
            Some(SplitError::NotPending)
        } else if now > self.invoices[id].deadline {
            Some(SplitError::DeadlinePassed)
        } else if amount <= 0 {
            Some(SplitError::NonPositivePayment)
        } else if amount > self.invoices[id].remaining() {
            Some(SplitError::ExceedsRemaining)
        } else {
            None
        }
    }

    /// Why `release` refuses, if it does.
    pub open spec fn release_error(self, id: u64) -> Option<SplitError> {
        if !self.invoices.contains_key(id) {
            Some(SplitError::InvoiceNotFound)
        } else if self.invoices[id].status != InvoiceStatus::Pending {
            Some(SplitError::NotPending)
        } else if self.invoices[id].funded < self.invoices[id].total() {
            Some(SplitError::NotFullyFunded)
        } else {
            None
        }
    }

    /// Why `refund` refuses, if it does.
    pub open spec fn refund_error(self, id: u64, now: u64) -> Option<SplitError> {
        if !self.invoices.contains_key(id) {
            Some(SplitError::InvoiceNotFound)
        } else if self.invoices[id].status != InvoiceStatus::Pending {
            Some(SplitError::NotPending)
        } else if now <= self.invoices[id].deadline {
            Some(SplitError::DeadlineNotPassed)
        } else {
            None
        }
    }

    /// Why `withdraw` refuses, if it does.
    pub open spec fn withdraw_error(self, id: u64, payer: Address, now: u64) -> Option<SplitError> {
        if !self.invoices.contains_key(id) {
            Some(SplitError::InvoiceNotFound)
        } else if !self.invoices[id].allow_early_withdrawal {
            Some(SplitError::EarlyWithdrawalNotAllowed)
        } else if self.invoices[id].status != InvoiceStatus::Pending {
            Some(SplitError::NotPending)
        } else if now > self.invoices[id].deadline {
            Some(SplitError::DeadlinePassed)
        } else if paid_by(self.invoices[id].payments, payer) <= 0 {
            Some(SplitError::NoContributions)
        } else {
            None
        }
    }

    /// The state after `payer` withdrew from invoice `id`: their payments are
    /// taken back, and their vote, where they cast one, no longer counts.
    pub open spec fn after_withdraw(self, id: u64, payer: Address) -> ContractModel {
        ContractModel {
            invoices: self.invoices.insert(id, self.invoices[id].without_contributions(payer)),
            votes: if self.votes.contains_key(id) {
                self.votes.insert(id, without_address(self.votes[id], payer))
            } else {
                self.votes
            },
            ..self
        }
    }

    /// A new vote of `voter` on invoice `id` makes a strict majority of its
    /// distinct payers.
    pub open spec fn vote_reaches_majority(self, id: u64, voter: Address) -> bool {
        self.votes_for(id).push(voter).len() > distinct_payers(self.invoices[id].payments).len()
            / 2
    }

    /// Why `vote_extend_deadline` refuses, if it does.
    pub open spec fn vote_error(self, id: u64, voter: Address) -> Option<SplitError> {
        if !self.invoices.contains_key(id) {
            Some(SplitError::InvoiceNotFound)
        } else if self.invoices[id].status != InvoiceStatus::Pending {
            Some(SplitError::NotPending)
        } else if !is_payer(self.invoices[id].payments, voter) {
            Some(SplitError::NotAPayer)
        } else if !self.votes_for(id).contains(voter) && self.vote_reaches_majority(id, voter)
            && self.invoices[id].deadline + DEADLINE_EXTENSION_SECS > u64::MAX {
            Some(SplitError::ArithmeticOverflow)
        } else {
            None
        }
    }

    /// The state after an accepted vote of `voter` on invoice `id`: a repeated
    /// vote changes nothing; a vote that makes a majority pushes the deadline
    /// back and clears the votes; any other vote is recorded.
    pub open spec fn after_vote(self, id: u64, voter: Address) -> ContractModel {
        if self.votes_for(id).contains(voter) {
            self
        } else if self.vote_reaches_majority(id, voter) {
            ContractModel {
                invoices: self.invoices.insert(
                    id,
                    self.invoices[id].with_deadline(
                        (self.invoices[id].deadline + DEADLINE_EXTENSION_SECS) as u64,
                    ),
                ),
                votes: self.votes.remove(id),
                ..self
            }
        } else {
            ContractModel { votes: self.votes.insert(id, self.votes_for(id).push(voter)), ..self }
        }
    }
}

/// Changing what one invoice `id` holds changes the holdings up to `n` by
/// just that, where `id` is among them.
pub proof fn lemma_held_upto_update(m1: ContractModel, m2: ContractModel, token: Address, id: u64, n: nat)
    requires
        forall|k: u64| 1 <= k <= n && k != id ==> #[trigger] m2.held_by(token, k) == m1.held_by(
            token,
            k,
        ),
        n <= u64::MAX,
    ensures
        m2.held_upto(token, n) - m1.held_upto(token, n) == if 1 <= id <= n {
            m2.held_by(token, id) - m1.held_by(token, id)
        } else {
            0
        },
    decreases n,
{
    if n > 0 {
        lemma_held_upto_update(m1, m2, token, id, (n - 1) as nat);
    }
}

/// Where an operation changes only invoice `id`, keeps its token, and its
/// transfers are all in that token and move what the invoice now holds more
/// than before, then in every token the transfers move exactly the change in
/// what the contract holds.
pub proof fn lemma_single_invoice_flow(m1: ContractModel, m2: ContractModel, id: u64, ts: Seq<Transfer>)
    requires
        m1.wf(),
        m1.invoices.contains_key(id),
        m2.counter == m1.counter,
        m2.invoices == m1.invoices.insert(id, m2.invoices[id]),
        m2.invoices[id].token == m1.invoices[id].token,
        forall|i: int| 0 <= i < ts.len() ==> #[trigger] token_of(ts[i]) == m1.invoices[id].token,
        net_inflow(ts) == m2.invoices[id].held() - m1.invoices[id].held(),
    ensures
        forall|t: Address| #[trigger] net_inflow_in(ts, t) == m2.held_in(t) - m1.held_in(t),
{
    assert forall|t: Address| #[trigger] net_inflow_in(ts, t) == m2.held_in(t) - m1.held_in(t) by {
        assert forall|k: u64| 1 <= k <= m1.counter && k != id implies #[trigger] m2.held_by(t, k)
            == m1.held_by(t, k) by {
            assert(m2.invoices.contains_key(k) == m1.invoices.contains_key(k));
            if m1.invoices.contains_key(k) {
                assert(m2.invoices[k] == m1.invoices[k]);
            }
        }
        lemma_held_upto_update(m1, m2, t, id, m1.counter as nat);
        lemma_net_inflow_one_token(ts, m1.invoices[id].token, t);
    }
}

/// Replacing invoice `id` by a consistent one, with votes for it that are
/// distinct payers of it, keeps the state consistent.
pub proof fn lemma_update_keeps_wf(
    m: ContractModel,
    id: u64,
    inv: InvoiceModel,
    votes: Map<u64, Seq<Address>>,
)
    requires
        m.wf(),
        m.invoices.contains_key(id),
        inv.wf(),
        votes.remove(id) == m.votes.remove(id),
        votes.contains_key(id) ==> valid_votes(votes[id], inv.payments),
    ensures
        (ContractModel { invoices: m.invoices.insert(id, inv), votes, ..m }).wf(),
{
    let n = ContractModel { invoices: m.invoices.insert(id, inv), votes, ..m };
    assert forall|k: u64| #[trigger] n.invoices.contains_key(k) implies 1 <= k <= n.counter
        && n.invoices[k].wf() by {
        if k != id {
            assert(m.invoices.contains_key(k));
        }
    }
    assert forall|k: u64| #[trigger] n.votes.contains_key(k) implies n.invoices.contains_key(k)
        && valid_votes(n.votes[k], n.invoices[k].payments) by {
        if k != id {
            assert(votes.remove(id).contains_key(k));
            assert(m.votes.contains_key(k));
            assert(votes[k] == votes.remove(id)[k]);
        }
    }
}

} // verus!
