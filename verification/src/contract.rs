//! The contract's ledger state and its operations.
use std::collections::HashMap;
use vstd::prelude::*;

use crate::amounts::{
    contains_address, copy_vec, has_paid, is_payer, lemma_is_payer_push, lemma_paid_by_bounds,
    lemma_push_keeps_distinct, lemma_sum_amounts_prefix, lemma_without_address,
    lemma_without_payer, lemma_without_payer_keeps_payers, paid_by, payer_total, remove_address,
    remove_payer, sum_positive_amounts, amounts_all_positive, unique_payers, valid_votes,
    votes_are_valid, without_address,
};
use crate::invoice::{
    lemma_net_inflow_concat, lemma_net_inflow_single, lemma_payouts_move_total, lemma_push_payment,
    lemma_refunds_move_funded, net_inflow, net_inflow_in, token_of,
};
use crate::model::{
    lemma_held_upto_update, lemma_single_invoice_flow, lemma_update_keeps_wf, new_invoice,
    ContractModel, DEADLINE_EXTENSION_SECS,
};
use crate::types::{Address, Invoice, InvoiceStatus, Payment, SplitError, Transfer};

verus! {

broadcast use vstd::std_specs::hash::group_hash_axioms;

/// The contract's ledger state: the invoice counter, the invoices and the
/// deadline-extension votes.
pub struct SplitContract {
    counter: u64,
    invoices: HashMap<u64, Invoice>,
    votes: HashMap<u64, Vec<Address>>,
}

impl View for SplitContract {
    type V = ContractModel;

    closed spec fn view(&self) -> ContractModel {
        ContractModel {
            counter: self.counter,
            invoices: self.invoices@.map_values(|inv: Invoice| inv@),
            votes: self.votes@.map_values(|v: Vec<Address>| v@),
        }
    }
}

impl SplitContract {
    /// The state is consistent.
    pub open spec fn wf(&self) -> bool {
        self@.wf()
    }

    /// A ledger with no invoice and no ID handed out yet.
    pub fn new() -> (s: SplitContract)
        ensures
            s.wf(),
            s@ == (ContractModel { counter: 0, invoices: Map::empty(), votes: Map::empty() }),
    {
        let s = SplitContract { counter: 0, invoices: HashMap::new(), votes: HashMap::new() };
        assert(s@.invoices =~= Map::empty());
        assert(s@.votes =~= Map::empty());
        s
    }

    /// A ledger whose last handed-out ID is `counter`, with no invoice loaded.
    pub fn with_counter(counter: u64) -> (s: SplitContract)
        ensures
            s.wf(),
            s@ == (ContractModel { counter, invoices: Map::empty(), votes: Map::empty() }),
    {
        let s = SplitContract { counter, invoices: HashMap::new(), votes: HashMap::new() };
        assert(s@.invoices =~= Map::empty());
        assert(s@.votes =~= Map::empty());
        s
    }

    /// The last invoice ID handed out.
    pub fn counter(&self) -> (c: u64)
        ensures
            c == self@.counter,
    {
        self.counter
    }

    /// Loads a stored invoice; it is taken where its ID was handed out, it is
    /// consistent and no votes are loaded for it yet, and refused otherwise.
    pub fn restore_invoice(&mut self, id: u64, invoice: Invoice) -> (ok: bool)
        requires
            old(self).wf(),
        ensures
            final(self).wf(),
            ok == (1 <= id <= old(self)@.counter && invoice@.wf() && !old(self)@.votes.contains_key(
                id,
            )),
            final(self)@ == if ok {
                old(self)@.with_invoice(id, invoice@)
            } else {
                old(self)@
            },
    {
        if id < 1 || id > self.counter || !invoice.is_well_formed() || self.votes.contains_key(&id) {
            return false;
        }
        self.put_invoice(id, invoice);
        true
    }

    /// Loads the stored votes of an invoice; they are taken where the invoice
    /// is loaded and they name distinct payers of it, and refused otherwise.
    pub fn restore_votes(&mut self, id: u64, votes: Vec<Address>) -> (ok: bool)
        requires
            old(self).wf(),
        ensures
            final(self).wf(),
            ok == (old(self)@.invoices.contains_key(id) && valid_votes(
                votes@,
                old(self)@.invoices[id].payments,
            )),
            final(self)@ == if ok {
                ContractModel { votes: old(self)@.votes.insert(id, votes@), ..old(self)@ }
            } else {
                old(self)@
            },
    {
        match self.invoices.get(&id) {
            None => {
                return false;
            },
            Some(inv) => {
                assert(inv@ == self@.invoices[id]);
                if !votes_are_valid(&votes, &inv.payments) {
                    return false;
                }
            },
        }
        let ghost v = votes@;
        self.votes.insert(id, votes);
        proof {
            assert(self@.votes =~= old(self)@.votes.insert(id, v));
            assert(old(self)@.invoices.insert(id, old(self)@.invoices[id]) =~= old(self)@.invoices);
            assert(self@.votes.remove(id) =~= old(self)@.votes.remove(id));
            lemma_update_keeps_wf(old(self)@, id, old(self)@.invoices[id], self@.votes);
        }
        true
    }

    /// The stored votes of an invoice, where any are stored.
    pub fn votes_entry(&self, id: u64) -> (v: Option<Vec<Address>>)
        ensures
            match v {
                Some(v) => self@.votes.contains_key(id) && v@ == self@.votes[id],
                None => !self@.votes.contains_key(id),
            },
    {
        match self.votes.get(&id) {
            Some(v) => Some(copy_vec(v)),
            None => None,
        }
    }

    /// Takes invoice `id` out of the map.
    fn take_invoice(&mut self, id: u64) -> (inv: Invoice)
        requires
            old(self)@.invoices.contains_key(id),
        ensures
            inv@ == old(self)@.invoices[id],
            final(self)@ == (ContractModel { invoices: old(self)@.invoices.remove(id), ..old(self)@ }),
    {
        let taken = self.invoices.remove(&id);
        assert(self@.invoices =~= old(self)@.invoices.remove(id));
        taken.unwrap()
    }

    /// Stores `inv` as invoice `id`.
    fn put_invoice(&mut self, id: u64, inv: Invoice)
        ensures
            final(self)@ == (ContractModel {
                invoices: old(self)@.invoices.insert(id, inv@),
                ..old(self)@
            }),
    {
        let ghost v = inv@;
        self.invoices.insert(id, inv);
        assert(self@.invoices =~= old(self)@.invoices.insert(id, v));
    }

    /// Create a new invoice whose `recipients` are owed the parallel
    /// `amounts` in `token`, refundable after `deadline`, at ledger time
    /// `now`. Answers the new invoice ID, one more than the last.
    pub fn create_invoice(
        &mut self,
        creator: Address,
        recipients: Vec<Address>,
        amounts: Vec<i128>,
        token: Address,
        deadline: u64,
        co_creators: Vec<Address>,
        allow_early_withdrawal: bool,
        now: u64,
    ) -> (r: Result<u64, SplitError>)
        requires
            old(self).wf(),
        ensures
            final(self).wf(),
            forall|t: Address| #[trigger] final(self)@.held_in(t) == old(self)@.held_in(t),
            match r {
                Ok(id) => {
                    &&& old(self)@.create_error(recipients@, amounts@, deadline, now) is None
                    &&& id == old(self)@.counter + 1
                    &&& !old(self)@.invoices.contains_key(id)
                    &&& final(self)@.invoices[id].creator == creator
                    &&& final(self)@.invoices[id].co_creators == co_creators@
                    &&& final(self)@.invoices[id].recipients == recipients@
                    &&& final(self)@.invoices[id].amounts == amounts@
                    &&& final(self)@.invoices[id].token == token
                    &&& final(self)@.invoices[id].deadline == deadline
                    &&& final(self)@.invoices[id].allow_early_withdrawal == allow_early_withdrawal
                    &&& final(self)@.invoices[id].funded == 0
                    &&& final(self)@.invoices[id].status == InvoiceStatus::Pending
                    &&& final(self)@.invoices[id].payments.len() == 0
                    &&& final(self)@ == (ContractModel {
                        counter: id,
                        invoices: old(self)@.invoices.insert(
                            id,
                            new_invoice(
                                creator,
                                co_creators@,
                                recipients@,
                                amounts@,
                                token,
                                deadline,
                                allow_early_withdrawal,
                            ),
                        ),
                        votes: old(self)@.votes,
                    })
                },
                Err(e) => {
                    &&& old(self)@.create_error(recipients@, amounts@, deadline, now) == Some(e)
                    &&& final(self)@ == old(self)@
                },
            },
    {
        if recipients.len() != amounts.len() {
            return Err(SplitError::LengthMismatch);
        }
        if recipients.len() == 0 {
            return Err(SplitError::NoRecipients);
        }
        if deadline <= now {
            return Err(SplitError::DeadlineNotInFuture);
        }
        if !amounts_all_positive(&amounts) {
            return Err(SplitError::NonPositiveAmount);
        }
        if self.counter == u64::MAX {
            return Err(SplitError::ArithmeticOverflow);
        }
        if sum_positive_amounts(&amounts).is_none() {
            return Err(SplitError::ArithmeticOverflow);
        }
        let id: u64 = self.counter + 1;
        let invoice = Invoice {
            creator,
            co_creators,
            recipients,
            amounts,
            token,
            deadline,
            funded: 0,
            status: InvoiceStatus::Pending,
            payments: Vec::new(),
            allow_early_withdrawal,
        };
        assert(invoice@.payments =~= Seq::<Payment>::empty());
        proof {
            lemma_sum_amounts_prefix(invoice@.amounts, 0);
            assert(invoice@.amounts.take(0) =~= Seq::<i128>::empty());
        }
        self.counter = id;
        self.put_invoice(id, invoice);
        proof {
            let (m1, m2) = (old(self)@, self@);
            assert forall|k: u64| #[trigger] m2.votes.contains_key(k) implies m2.invoices.contains_key(k)
                && valid_votes(m2.votes[k], m2.invoices[k].payments) by {
                assert(m1.votes.contains_key(k));
            }
            assert forall|k: u64| #[trigger] m2.invoices.contains_key(k) implies 1 <= k <= m2.counter
                && m2.invoices[k].wf() by {
                if k != id {
                    assert(m1.invoices.contains_key(k));
                }
            }
            assert forall|t: Address| #[trigger] m2.held_in(t) == m1.held_in(t) by {
                assert forall|k: u64| 1 <= k <= m1.counter && k != 0 implies #[trigger] m2.held_by(t, k)
                    == m1.held_by(t, k) by {
                    assert(m2.invoices.contains_key(k) == m1.invoices.contains_key(k));
                    if m1.invoices.contains_key(k) {
                        assert(m2.invoices[k] == m1.invoices[k]);
                    }
                }
                lemma_held_upto_update(m1, m2, t, 0, m1.counter as nat);
                assert(m2.held_by(t, id) == 0);
            }
        }
        Ok(id)
    }

    /// Why `pay` refuses, computed.
    fn check_pay(&self, invoice_id: u64, amount: i128, now: u64) -> (e: Option<SplitError>)
        requires
            self.wf(),
        ensures
            e == self@.pay_error(invoice_id, amount, now),
    {
        match self.invoices.get(&invoice_id) {
            None => Some(SplitError::InvoiceNotFound),
            Some(inv) => {
                assert(inv@ == self@.invoices[invoice_id]);
                if inv.status != InvoiceStatus::Pending {
                    Some(SplitError::NotPending)
                } else if now > inv.deadline {
                    Some(SplitError::DeadlinePassed)
                } else if amount <= 0 {
                    Some(SplitError::NonPositivePayment)
                } else if amount > inv.total() - inv.funded {
                    Some(SplitError::ExceedsRemaining)
                } else {
                    None
                }
            },
        }
    }

    /// Marks the invoice released and answers the transfers that pay each
    /// recipient its amount.
    fn release_funds(invoice: &mut Invoice) -> (ts: Vec<Transfer>)
        requires
            old(invoice).recipients.len() == old(invoice).amounts.len(),
        ensures
            final(invoice)@ == old(invoice)@.with_status(InvoiceStatus::Released),
            ts@ == old(invoice)@.payouts(),
    {
        let ts = invoice.payouts();
        invoice.status = InvoiceStatus::Released;
        ts
    }

    /// `payer` pays `amount` toward invoice `invoice_id` at ledger time `now`.
    /// The payment moves into the contract; where it completes the invoice,
    /// the invoice is released and every recipient is paid its amount.
    pub fn pay(&mut self, payer: Address, invoice_id: u64, amount: i128, now: u64) -> (r: Result<
        Vec<Transfer>,
        SplitError,
    >)
        requires
            old(self).wf(),
        ensures
            final(self).wf(),
            final(self)@.counter == old(self)@.counter,
            match r {
                Ok(ts) => {
                    let paid = old(self)@.invoices[invoice_id].with_payment(payer, amount);
                    &&& old(self)@.pay_error(invoice_id, amount, now) is None
                    &&& final(self)@ == old(self)@.with_invoice(invoice_id, paid)
                    &&& ts@ == seq![
                        Transfer::Deposit {
                            token: paid.token,
                            from: payer,
                            amount,
                        },
                    ] + if paid.status == InvoiceStatus::Released {
                        paid.payouts()
                    } else {
                        Seq::empty()
                    }
                    &&& net_inflow(ts@) == final(self)@.held(invoice_id) - old(self)@.held(invoice_id)
                    &&& forall|t: Address| #[trigger]
                        net_inflow_in(ts@, t) == final(self)@.held_in(t) - old(self)@.held_in(t)
                },
                Err(e) => {
                    &&& old(self)@.pay_error(invoice_id, amount, now) == Some(e)
                    &&& final(self)@ == old(self)@
                },
            },
    {
        if let Some(e) = self.check_pay(invoice_id, amount, now) {
            return Err(e);
        }
        let ghost old_inv = self@.invoices[invoice_id];
        let mut invoice = self.take_invoice(invoice_id);
        let total: i128 = invoice.total();
        invoice.payments.push(Payment { payer, amount });
        invoice.funded = invoice.funded + amount;
        proof {
            lemma_push_payment(old_inv.payments, Payment { payer, amount });
        }
        let mut transfers: Vec<Transfer> = Vec::new();
        transfers.push(Transfer::Deposit { token: invoice.token, from: payer, amount });
        let ghost deposit = transfers@;
        if invoice.funded >= total {
            let mut payouts = Self::release_funds(&mut invoice);
            transfers.append(&mut payouts);
        }
        let ghost new_inv = invoice@;
        assert(new_inv =~= old_inv.with_payment(payer, amount));
        self.put_invoice(invoice_id, invoice);
        proof {
            let m1 = old(self)@;
            assert(self@ =~= m1.with_invoice(invoice_id, new_inv));
            lemma_net_inflow_single(Transfer::Deposit { token: new_inv.token, from: payer, amount });
            assert(deposit =~= seq![Transfer::Deposit { token: new_inv.token, from: payer, amount }]);
            if new_inv.status == InvoiceStatus::Released {
                lemma_payouts_move_total(new_inv);
                lemma_net_inflow_concat(deposit, new_inv.payouts());
            } else {
                assert(transfers@ =~= deposit + Seq::<Transfer>::empty());
            }
            assert forall|i: int| 0 <= i < transfers@.len() implies #[trigger] token_of(transfers@[i])
                == old_inv.token by {
                if i > 0 {
                    assert(transfers@[i] == new_inv.payouts()[i - 1]);
                }
            }
            if m1.votes.contains_key(invoice_id) {
                assert forall|a: Address| #[trigger] m1.votes[invoice_id].contains(a) implies is_payer(
                    new_inv.payments,
                    a,
                ) by {
                    lemma_is_payer_push(old_inv.payments, Payment { payer, amount }, a);
                }
            }
            assert(m1.votes.remove(invoice_id) =~= m1.votes.remove(invoice_id));
            lemma_update_keeps_wf(m1, invoice_id, new_inv, m1.votes);
            lemma_single_invoice_flow(m1, self@, invoice_id, transfers@);
        }
        Ok(transfers)
    }

    /// Release funds to all recipients of invoice `invoice_id` once it is
    /// fully funded.
    pub fn release(&mut self, invoice_id: u64) -> (r: Result<Vec<Transfer>, SplitError>)
        requires
            old(self).wf(),
        ensures
            final(self).wf(),
            final(self)@.counter == old(self)@.counter,
            match r {
                Ok(ts) => {
                    let inv = old(self)@.invoices[invoice_id];
                    &&& old(self)@.release_error(invoice_id) is None
                    &&& final(self)@ == old(self)@.with_invoice(
                        invoice_id,
                        inv.with_status(InvoiceStatus::Released),
                    )
                    &&& ts@ == inv.payouts()
                    &&& net_inflow(ts@) == final(self)@.held(invoice_id) - old(self)@.held(invoice_id)
                    &&& forall|t: Address| #[trigger]
                        net_inflow_in(ts@, t) == final(self)@.held_in(t) - old(self)@.held_in(t)
                },
                Err(e) => {
                    &&& old(self)@.release_error(invoice_id) == Some(e)
                    &&& final(self)@ == old(self)@
                },
            },
    {
        match self.invoices.get(&invoice_id) {
            None => {
                return Err(SplitError::InvoiceNotFound);
            },
            Some(inv) => {
                assert(inv@ == self@.invoices[invoice_id]);
                if inv.status != InvoiceStatus::Pending {
                    return Err(SplitError::NotPending);
                }
                if inv.funded < inv.total() {
                    return Err(SplitError::NotFullyFunded);
                }
            },
        }
        let ghost old_inv = self@.invoices[invoice_id];
        let mut invoice = self.take_invoice(invoice_id);
        let transfers = Self::release_funds(&mut invoice);
        let ghost new_inv = invoice@;
        self.put_invoice(invoice_id, invoice);
        proof {
            let m1 = old(self)@;
            assert(self@ =~= m1.with_invoice(invoice_id, new_inv));
            lemma_payouts_move_total(old_inv);
            assert forall|i: int| 0 <= i < transfers@.len() implies #[trigger] token_of(transfers@[i])
                == old_inv.token by {}
            lemma_update_keeps_wf(m1, invoice_id, new_inv, m1.votes);
            lemma_single_invoice_flow(m1, self@, invoice_id, transfers@);
        }
        Ok(transfers)
    }

    /// Refund all payers of invoice `invoice_id` if at ledger time `now` the
    /// deadline has passed and the invoice is not fully funded.
    pub fn refund(&mut self, invoice_id: u64, now: u64) -> (r: Result<Vec<Transfer>, SplitError>)
        requires
            old(self).wf(),
        ensures
            final(self).wf(),
            final(self)@.counter == old(self)@.counter,
            match r {
                Ok(ts) => {
                    let inv = old(self)@.invoices[invoice_id];
                    &&& old(self)@.refund_error(invoice_id, now) is None
                    &&& final(self)@ == old(self)@.with_invoice(
                        invoice_id,
                        inv.with_status(InvoiceStatus::Refunded),
                    )
                    &&& ts@ == inv.refunds()
                    &&& net_inflow(ts@) == final(self)@.held(invoice_id) - old(self)@.held(invoice_id)
                    &&& forall|t: Address| #[trigger]
                        net_inflow_in(ts@, t) == final(self)@.held_in(t) - old(self)@.held_in(t)
                },
                Err(e) => {
                    &&& old(self)@.refund_error(invoice_id, now) == Some(e)
                    &&& final(self)@ == old(self)@
                },
            },
    {
        match self.invoices.get(&invoice_id) {
            None => {
                return Err(SplitError::InvoiceNotFound);
            },
            Some(inv) => {
                assert(inv@ == self@.invoices[invoice_id]);
                if inv.status != InvoiceStatus::Pending {
                    return Err(SplitError::NotPending);
                }
                if now <= inv.deadline {
                    return Err(SplitError::DeadlineNotPassed);
                }
            },
        }
        let ghost old_inv = self@.invoices[invoice_id];
        let mut invoice = self.take_invoice(invoice_id);
        let transfers = invoice.refunds();
        invoice.status = InvoiceStatus::Refunded;
        let ghost new_inv = invoice@;
        self.put_invoice(invoice_id, invoice);
        proof {
            let m1 = old(self)@;
            assert(self@ =~= m1.with_invoice(invoice_id, new_inv));
            lemma_refunds_move_funded(old_inv);
            assert forall|i: int| 0 <= i < transfers@.len() implies #[trigger] token_of(transfers@[i])
                == old_inv.token by {}
            lemma_update_keeps_wf(m1, invoice_id, new_inv, m1.votes);
            lemma_single_invoice_flow(m1, self@, invoice_id, transfers@);
        }
        Ok(transfers)
    }

    /// Retrieve an invoice by ID.
    pub fn get_invoice(&self, invoice_id: u64) -> (r: Result<Invoice, SplitError>)
        ensures
            match r {
                Ok(inv) => self@.invoices.contains_key(invoice_id) && inv@ == self@.invoices[invoice_id],
                Err(e) => !self@.invoices.contains_key(invoice_id) && e == SplitError::InvoiceNotFound,
            },
    {
        match self.invoices.get(&invoice_id) {
            Some(inv) => Ok(inv.copy()),
            None => Err(SplitError::InvoiceNotFound),
        }
    }

    /// Returns true if the invoice exists and its status matches
    /// `expected_status`; false for non-existent invoices or a status mismatch.
    pub fn verify_invoice(&self, invoice_id: u64, expected_status: InvoiceStatus) -> (r: bool)
        ensures
            r == (self@.invoices.contains_key(invoice_id) && self@.invoices[invoice_id].status
                == expected_status),
    {
        match self.invoices.get(&invoice_id) {
            Some(inv) => inv.status == expected_status,
            None => false,
        }
    }

    /// What `payer` may take back from invoice `invoice_id`, computed.
    fn check_withdraw(&self, invoice_id: u64, payer: Address, now: u64) -> (r: Result<i128, SplitError>)
        requires
            self.wf(),
        ensures
            match r {
                Ok(x) => self@.withdraw_error(invoice_id, payer, now) is None && x == paid_by(
                    self@.invoices[invoice_id].payments,
                    payer,
                ),
                Err(e) => self@.withdraw_error(invoice_id, payer, now) == Some(e),
            },
    {
        match self.invoices.get(&invoice_id) {
            None => Err(SplitError::InvoiceNotFound),
            Some(inv) => {
                assert(inv@ == self@.invoices[invoice_id]);
                if !inv.allow_early_withdrawal {
                    return Err(SplitError::EarlyWithdrawalNotAllowed);
                }
                if inv.status != InvoiceStatus::Pending {
                    return Err(SplitError::NotPending);
                }
                if now > inv.deadline {
                    return Err(SplitError::DeadlinePassed);
                }
                let total_paid: i128 = payer_total(&inv.payments, payer);
                if total_paid <= 0 {
                    return Err(SplitError::NoContributions);
                }
                Ok(total_paid)
            },
        }
    }

    /// Lets `payer` reclaim every contribution to invoice `invoice_id` at
    /// ledger time `now`, up to the deadline, where the invoice allows early
    /// withdrawal. A vote they cast on the invoice no longer counts.
    pub fn withdraw(&mut self, invoice_id: u64, payer: Address, now: u64) -> (r: Result<
        Transfer,
        SplitError,
    >)
        requires
            old(self).wf(),
        ensures
            final(self).wf(),
            final(self)@.counter == old(self)@.counter,
            match r {
                Ok(t) => {
                    let inv = old(self)@.invoices[invoice_id];
                    &&& old(self)@.withdraw_error(invoice_id, payer, now) is None
                    &&& final(self)@ == old(self)@.after_withdraw(invoice_id, payer)
                    &&& t == Transfer::Payout {
                        token: inv.token,
                        to: payer,
                        amount: paid_by(inv.payments, payer) as i128,
                    }
                    &&& net_inflow(seq![t]) == final(self)@.held(invoice_id) - old(self)@.held(
                        invoice_id,
                    )
                    &&& forall|tk: Address| #[trigger]
                        net_inflow_in(seq![t], tk) == final(self)@.held_in(tk) - old(self)@.held_in(tk)
                },
                Err(e) => {
                    &&& old(self)@.withdraw_error(invoice_id, payer, now) == Some(e)
                    &&& final(self)@ == old(self)@
                },
            },
    {
        let total_paid: i128 = match self.check_withdraw(invoice_id, payer, now) {
            Ok(x) => x,
            Err(e) => {
                return Err(e);
            },
        };
        let ghost m1 = self@;
        let ghost old_inv = self@.invoices[invoice_id];
        proof {
            lemma_without_payer(old_inv.payments, payer);
            lemma_paid_by_bounds(old_inv.payments, payer);
        }
        let mut invoice = self.take_invoice(invoice_id);
        invoice.payments = remove_payer(&invoice.payments, payer);
        invoice.funded = invoice.funded - total_paid;
        let transfer = Transfer::Payout { token: invoice.token, to: payer, amount: total_paid };
        let ghost new_inv = invoice@;
        assert(new_inv =~= old_inv.without_contributions(payer));
        self.put_invoice(invoice_id, invoice);
        let kept_votes = match self.votes.get(&invoice_id) {
            Some(v) => Some(remove_address(v, payer)),
            None => None,
        };
        if let Some(v) = kept_votes {
            self.votes.insert(invoice_id, v);
        }
        proof {
            let m2 = self@;
            assert(m2.invoices =~= m1.invoices.insert(invoice_id, new_inv));
            assert(m2.votes =~= m1.after_withdraw(invoice_id, payer).votes);
            assert(m2 =~= m1.after_withdraw(invoice_id, payer));
            if m1.votes.contains_key(invoice_id) {
                let vs = m1.votes[invoice_id];
                lemma_without_address(vs, payer);
                assert forall|a: Address| #[trigger] without_address(vs, payer).contains(a) implies is_payer(
                    new_inv.payments,
                    a,
                ) by {
                    assert(vs.contains(a));
                    lemma_without_payer_keeps_payers(old_inv.payments, payer, a);
                }
                assert(m2.votes.remove(invoice_id) =~= m1.votes.remove(invoice_id));
            } else {
                assert(m2.votes.remove(invoice_id) =~= m1.votes.remove(invoice_id));
            }
            lemma_update_keeps_wf(m1, invoice_id, new_inv, m2.votes);
            lemma_net_inflow_single(transfer);
            lemma_single_invoice_flow(m1, m2, invoice_id, seq![transfer]);
        }
        Ok(transfer)
    }

    /// `voter`, a payer of invoice `invoice_id`, votes to extend its deadline
    /// by seven days. Once a strict majority of its distinct payers voted,
    /// the deadline is extended and the votes are cleared; a repeated vote is
    /// ignored.
    pub fn vote_extend_deadline(&mut self, invoice_id: u64, voter: Address) -> (r: Result<
        (),
        SplitError,
    >)
        requires
            old(self).wf(),
        ensures
            final(self).wf(),
            final(self)@.counter == old(self)@.counter,
            forall|t: Address| #[trigger] final(self)@.held_in(t) == old(self)@.held_in(t),
            match r {
                Ok(_) => {
                    &&& old(self)@.vote_error(invoice_id, voter) is None
                    &&& final(self)@ == old(self)@.after_vote(invoice_id, voter)
                },
                Err(e) => {
                    &&& old(self)@.vote_error(invoice_id, voter) == Some(e)
                    &&& final(self)@ == old(self)@
                },
            },
    {
        let (unique_count, deadline): (usize, u64) = match self.invoices.get(&invoice_id) {
            None => {
                return Err(SplitError::InvoiceNotFound);
            },
            Some(inv) => {
                assert(inv@ == self@.invoices[invoice_id]);
                if inv.status != InvoiceStatus::Pending {
                    return Err(SplitError::NotPending);
                }
                if !has_paid(&inv.payments, voter) {
                    return Err(SplitError::NotAPayer);
                }
                (unique_payers(&inv.payments).len(), inv.deadline)
            },
        };
        let mut votes: Vec<Address> = match self.votes.get(&invoice_id) {
            Some(v) => copy_vec(v),
            None => Vec::new(),
        };
        assert(votes@ =~= self@.votes_for(invoice_id));
        if contains_address(&votes, voter) {
            return Ok(());
        }
        let ghost m1 = self@;
        let ghost old_votes = votes@;
        votes.push(voter);
        if votes.len() > unique_count / 2 {
            if deadline > u64::MAX - DEADLINE_EXTENSION_SECS {
                return Err(SplitError::ArithmeticOverflow);
            }
            let ghost old_inv = self@.invoices[invoice_id];
            let mut invoice = self.take_invoice(invoice_id);
            invoice.deadline = deadline + DEADLINE_EXTENSION_SECS;
            let ghost new_inv = invoice@;
            assert(new_inv =~= old_inv.with_deadline(
                (old_inv.deadline + DEADLINE_EXTENSION_SECS) as u64,
            ));
            self.put_invoice(invoice_id, invoice);
            self.votes.remove(&invoice_id);
            proof {
                let m2 = self@;
                assert(m2.invoices =~= m1.invoices.insert(invoice_id, new_inv));
                assert(m2.votes =~= m1.votes.remove(invoice_id));
                assert(m2 =~= m1.after_vote(invoice_id, voter));
                assert(m2.votes.remove(invoice_id) =~= m1.votes.remove(invoice_id));
                lemma_update_keeps_wf(m1, invoice_id, new_inv, m2.votes);
                assert forall|t: Address| #[trigger] m2.held_in(t) == m1.held_in(t) by {
                    assert forall|k: u64| 1 <= k <= m1.counter && k != invoice_id implies #[trigger] m2.held_by(t, k)
                        == m1.held_by(t, k) by {
                        assert(m2.invoices.contains_key(k) == m1.invoices.contains_key(k));
                        if m1.invoices.contains_key(k) {
                            assert(m2.invoices[k] == m1.invoices[k]);
                        }
                    }
                    lemma_held_upto_update(m1, m2, t, invoice_id, m1.counter as nat);
                }
            }
        } else {
            let ghost v = votes@;
            self.votes.insert(invoice_id, votes);
            proof {
                let m2 = self@;
                assert(m2.votes =~= m1.votes.insert(invoice_id, v));
                assert(m2 =~= m1.after_vote(invoice_id, voter));
                lemma_push_keeps_distinct(old_votes, voter);
                assert(m1.invoices.insert(invoice_id, m1.invoices[invoice_id]) =~= m1.invoices);
                assert(m2.votes.remove(invoice_id) =~= m1.votes.remove(invoice_id));
                lemma_update_keeps_wf(m1, invoice_id, m1.invoices[invoice_id], m2.votes);
                assert(m2.invoices =~= m1.invoices);
                assert forall|t: Address| #[trigger] m2.held_in(t) == m1.held_in(t) by {
                    lemma_held_upto_update(m1, m2, t, 0, m1.counter as nat);
                }
            }
        }
        Ok(())
    }

    /// Returns true if `caller` is the invoice creator or a listed co-creator.
    pub fn is_authorized_creator(invoice: &Invoice, caller: &Address) -> (r: bool)
        ensures
            r == (invoice.creator == *caller || invoice.co_creators@.contains(*caller)),
    {
        if invoice.creator == *caller {
            return true;
        }
        contains_address(&invoice.co_creators, *caller)
    }
}

} // verus!
