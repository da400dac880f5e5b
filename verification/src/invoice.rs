//! What an invoice is worth, when it is consistent, and what settling it moves.
use vstd::prelude::*;

use crate::amounts::{
    all_positive, amounts_all_positive, copy_vec,
    paid_by, paid_total, payments_all_positive, payments_positive, sum_amounts, sum_positive_amounts,
    sum_positive_payments, without_payer,
};
use crate::types::{Address, Invoice, InvoiceModel, InvoiceStatus, Payment, Transfer};

verus! {

/// What a transfer moves into the contract (out of it, where negative).
pub open spec fn inflow(t: Transfer) -> int {
    match t {
        Transfer::Deposit { amount, .. } => amount as int,
        Transfer::Payout { amount, .. } => -amount,
    }
}

/// What a list of transfers moves into the contract in all.
pub open spec fn net_inflow(ts: Seq<Transfer>) -> int
    decreases ts.len(),
{
    if ts.len() == 0 {
        0
    } else {
        net_inflow(ts.drop_last()) + inflow(ts.last())
    }
}

/// The token a transfer moves.
pub open spec fn token_of(t: Transfer) -> Address {
    match t {
        Transfer::Deposit { token, .. } => token,
        Transfer::Payout { token, .. } => token,
    }
}

/// What a list of transfers moves into the contract in `token`.
pub open spec fn net_inflow_in(ts: Seq<Transfer>, token: Address) -> int
    decreases ts.len(),
{
    if ts.len() == 0 {
        0
    } else {
        net_inflow_in(ts.drop_last(), token) + if token_of(ts.last()) == token {
            inflow(ts.last())
        } else {
            0
        }
    }
}

impl InvoiceModel {
    /// The sum of all amounts owed to recipients.
    pub open spec fn total(self) -> int {
        sum_amounts(self.amounts)
    }

    /// What is still missing before the invoice is fully funded.
    pub open spec fn remaining(self) -> int {
        self.total() - self.funded
    }

    /// What the contract holds for this invoice: the funds of a pending
    /// invoice, nothing once it is settled.
    pub open spec fn held(self) -> int {
        if self.status == InvoiceStatus::Pending {
            self.funded as int
        } else {
            0
        }
    }

    /// The consistency that every stored invoice keeps.
    pub open spec fn wf(self) -> bool {
        &&& self.recipients.len() == self.amounts.len()
        &&& self.amounts.len() > 0
        &&& all_positive(self.amounts)
        &&& self.total() <= i128::MAX
        &&& payments_positive(self.payments)
        &&& self.funded == paid_total(self.payments)
        &&& 0 <= self.funded <= self.total()
        &&& self.status == InvoiceStatus::Pending ==> self.funded < self.total()
        &&& self.status == InvoiceStatus::Released ==> self.funded == self.total()
    }

    /// Each recipient is paid its amount, in the order of the recipients.
    pub open spec fn payouts(self) -> Seq<Transfer> {
        Seq::new(
            self.recipients.len(),
            |i: int| Transfer::Payout { token: self.token, to: self.recipients[i], amount: self.amounts[i] },
        )
    }

    /// Each payment goes back to its payer, in the order of the payments.
    pub open spec fn refunds(self) -> Seq<Transfer> {
        Seq::new(
            self.payments.len(),
            |i: int|
                Transfer::Payout {
                    token: self.token,
                    to: self.payments[i].payer,
                    amount: self.payments[i].amount,
                },
        )
    }

    /// The invoice after `payer` paid `amount`: the payment is recorded, the
    /// funds grow by it, and the invoice is released once fully funded.
    pub open spec fn with_payment(self, payer: Address, amount: i128) -> InvoiceModel {
        let funded: i128 = (self.funded + amount) as i128;
        InvoiceModel {
            payments: self.payments.push(Payment { payer, amount }),
            funded,
            status: if funded >= self.total() {
                InvoiceStatus::Released
            } else {
                InvoiceStatus::Pending
            },
            ..self
        }
    }

    /// The invoice with another status.
    pub open spec fn with_status(self, status: InvoiceStatus) -> InvoiceModel {
        InvoiceModel { status, ..self }
    }

    /// The invoice with another deadline.
    pub open spec fn with_deadline(self, deadline: u64) -> InvoiceModel {
        InvoiceModel { deadline, ..self }
    }

    /// The invoice after every payment of `who` was taken back.
    pub open spec fn without_contributions(self, who: Address) -> InvoiceModel {
        InvoiceModel {
            payments: without_payer(self.payments, who),
            funded: (self.funded - paid_by(self.payments, who)) as i128,
            ..self
        }
    }
}

// ---------------------------------------------------------------------------
// Lemmas
// ---------------------------------------------------------------------------

/// The inflow of two lists of transfers one after the other adds up.
pub proof fn lemma_net_inflow_concat(a: Seq<Transfer>, b: Seq<Transfer>)
    ensures
        net_inflow(a + b) == net_inflow(a) + net_inflow(b),
    decreases b.len(),
{
    if b.len() > 0 {
        lemma_net_inflow_concat(a, b.drop_last());
        assert((a + b).drop_last() =~= a + b.drop_last());
    } else {
        assert(a + b =~= a);
    }
}

/// Transfers all in one token move nothing in any other, and all they move
/// in their own.
pub proof fn lemma_net_inflow_one_token(ts: Seq<Transfer>, x: Address, token: Address)
    requires
        forall|i: int| 0 <= i < ts.len() ==> #[trigger] token_of(ts[i]) == x,
    ensures
        net_inflow_in(ts, token) == if token == x {
            net_inflow(ts)
        } else {
            0
        },
    decreases ts.len(),
{
    if ts.len() > 0 {
        let t = ts.drop_last();
        assert forall|i: int| 0 <= i < t.len() implies #[trigger] token_of(t[i]) == x by {
            assert(t[i] == ts[i]);
        }
        lemma_net_inflow_one_token(t, x, token);
        assert(token_of(ts[ts.len() - 1]) == x);
    }
}

/// A single transfer moves what it moves.
pub proof fn lemma_net_inflow_single(t: Transfer)
    ensures
        net_inflow(seq![t]) == inflow(t),
{
    assert(seq![t].drop_last() =~= Seq::<Transfer>::empty());
    assert(seq![t].last() == t);
    assert(net_inflow(Seq::<Transfer>::empty()) == 0);
}

/// Payouts of the amounts in `amounts`, one for one, move their sum out.
pub proof fn lemma_net_inflow_of_payouts(ts: Seq<Transfer>, amounts: Seq<i128>)
    requires
        ts.len() == amounts.len(),
        forall|i: int| 0 <= i < ts.len() ==> #[trigger] inflow(ts[i]) == -amounts[i],
    ensures
        net_inflow(ts) == -sum_amounts(amounts),
    decreases ts.len(),
{
    if ts.len() > 0 {
        let (t, a) = (ts.drop_last(), amounts.drop_last());
        assert forall|i: int| 0 <= i < t.len() implies #[trigger] inflow(t[i]) == -a[i] by {
            assert(t[i] == ts[i]);
        }
        lemma_net_inflow_of_payouts(t, a);
        assert(inflow(ts[ts.len() - 1]) == -amounts[amounts.len() - 1]);
    }
}

/// Refunds of the payments in `p`, one for one, move their sum out.
pub proof fn lemma_net_inflow_of_refunds(ts: Seq<Transfer>, p: Seq<Payment>)
    requires
        ts.len() == p.len(),
        forall|i: int| 0 <= i < ts.len() ==> #[trigger] inflow(ts[i]) == -p[i].amount,
    ensures
        net_inflow(ts) == -paid_total(p),
    decreases ts.len(),
{
    if ts.len() > 0 {
        let (t, q) = (ts.drop_last(), p.drop_last());
        assert forall|i: int| 0 <= i < t.len() implies #[trigger] inflow(t[i]) == -q[i].amount by {
            assert(t[i] == ts[i]);
        }
        lemma_net_inflow_of_refunds(t, q);
        assert(inflow(ts[ts.len() - 1]) == -p[p.len() - 1].amount);
    }
}

/// Paying out every recipient moves exactly the invoice total out.
pub proof fn lemma_payouts_move_total(inv: InvoiceModel)
    requires
        inv.recipients.len() == inv.amounts.len(),
    ensures
        net_inflow(inv.payouts()) == -inv.total(),
{
    let ts = inv.payouts();
    assert forall|i: int| 0 <= i < ts.len() implies #[trigger] inflow(ts[i]) == -inv.amounts[i] by {}
    lemma_net_inflow_of_payouts(ts, inv.amounts);
}

/// Refunding every payment moves exactly the funds out.
pub proof fn lemma_refunds_move_funded(inv: InvoiceModel)
    requires
        inv.funded == paid_total(inv.payments),
    ensures
        net_inflow(inv.refunds()) == -inv.funded,
{
    let ts = inv.refunds();
    assert forall|i: int| 0 <= i < ts.len() implies #[trigger] inflow(ts[i]) == -inv.payments[i].amount by {}
    lemma_net_inflow_of_refunds(ts, inv.payments);
}

/// Appending a positive payment keeps the payments positive and adds it to the total.
pub proof fn lemma_push_payment(p: Seq<Payment>, x: Payment)
    requires
        payments_positive(p),
        x.amount > 0,
    ensures
        payments_positive(p.push(x)),
        paid_total(p.push(x)) == paid_total(p) + x.amount,
{
    assert(p.push(x).drop_last() =~= p);
    assert forall|i: int| 0 <= i < p.push(x).len() implies #[trigger] p.push(x)[i].amount > 0 by {
        if i < p.len() {
            assert(p.push(x)[i] == p[i]);
        }
    }
}

// ---------------------------------------------------------------------------
// Executable
// ---------------------------------------------------------------------------

impl Invoice {
    /// The sum of all amounts owed to recipients.
    pub fn total(&self) -> (t: i128)
        requires
            all_positive(self.amounts@),
            sum_amounts(self.amounts@) <= i128::MAX,
        ensures
            t == self@.total(),
    {
        match sum_positive_amounts(&self.amounts) {
            Some(t) => t,
            None => 0,  // cannot happen: the total fits
        }
    }

    /// Whether the invoice is consistent: parallel recipients and positive
    /// amounts whose total fits, positive payments that add up to the funds,
    /// and funds that match the status.
    pub fn is_well_formed(&self) -> (r: bool)
        ensures
            r == self@.wf(),
    {
        if self.recipients.len() != self.amounts.len() || self.amounts.len() == 0 {
            return false;
        }
        if !amounts_all_positive(&self.amounts) {
            return false;
        }
        let total: i128 = match sum_positive_amounts(&self.amounts) {
            Some(t) => t,
            None => {
                return false;
            },
        };
        if !payments_all_positive(&self.payments) {
            return false;
        }
        let paid: i128 = match sum_positive_payments(&self.payments) {
            Some(t) => t,
            None => {
                return false;
            },
        };
        if self.funded != paid || self.funded < 0 || self.funded > total {
            return false;
        }
        match self.status {
            InvoiceStatus::Pending => self.funded < total,
            InvoiceStatus::Released => self.funded == total,
            InvoiceStatus::Refunded => true,
        }
    }

    /// A copy with the same value.
    pub fn copy(&self) -> (c: Invoice)
        ensures
            c@ == self@,
    {
        Invoice {
            creator: self.creator,
            co_creators: copy_vec(&self.co_creators),
            recipients: copy_vec(&self.recipients),
            amounts: copy_vec(&self.amounts),
            token: self.token,
            deadline: self.deadline,
            funded: self.funded,
            status: self.status,
            payments: copy_vec(&self.payments),
            allow_early_withdrawal: self.allow_early_withdrawal,
        }
    }

    /// The transfers that pay each recipient its amount.
    pub fn payouts(&self) -> (ts: Vec<Transfer>)
        requires
            self.recipients.len() == self.amounts.len(),
        ensures
            ts@ == self@.payouts(),
    {
        let mut out: Vec<Transfer> = Vec::new();
        for i in 0..self.recipients.len()
            invariant
                self.recipients.len() == self.amounts.len(),
                out@ == self@.payouts().take(i as int),
        {
            out.push(Transfer::Payout { token: self.token, to: self.recipients[i], amount: self.amounts[i] });
            assert(out@ =~= self@.payouts().take(i + 1));
        }
        assert(self@.payouts().take(self.recipients.len() as int) =~= self@.payouts());
        out
    }

    /// The transfers that give each payment back to its payer.
    pub fn refunds(&self) -> (ts: Vec<Transfer>)
        ensures
            ts@ == self@.refunds(),
    {
        let mut out: Vec<Transfer> = Vec::new();
        for i in 0..self.payments.len()
            invariant
                out@ == self@.refunds().take(i as int),
        {
            let p = self.payments[i];
            out.push(Transfer::Payout { token: self.token, to: p.payer, amount: p.amount });
            assert(out@ =~= self@.refunds().take(i + 1));
        }
        assert(self@.refunds().take(self.payments.len() as int) =~= self@.refunds());
        out
    }
}

} // verus!
