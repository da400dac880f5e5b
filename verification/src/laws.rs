//! Properties of the contract as a whole.
use vstd::prelude::*;

use crate::amounts::{
    distinct_payers, is_payer, lemma_is_payer_push, lemma_paid_by_bounds, lemma_without_address,
    lemma_without_payer, paid_by, without_payer,
};
use crate::amounts::{all_positive, sum_amounts};
use crate::model::{new_invoice, ContractModel, DEADLINE_EXTENSION_SECS};
use crate::invoice::{lemma_payouts_move_total, lemma_refunds_move_funded, net_inflow, net_inflow_in};
use crate::types::{Address, InvoiceModel, InvoiceStatus, Payment, Transfer};

verus! {

/// A released or refunded invoice is settled for good: paying, releasing,
/// refunding, withdrawing from and voting on it are all refused.
pub proof fn law_settled_invoice_is_final(
    m: ContractModel,
    id: u64,
    who: Address,
    amount: i128,
    now: u64,
)
    requires
        m.invoices.contains_key(id),
        m.invoices[id].status != InvoiceStatus::Pending,
    ensures
        m.pay_error(id, amount, now) is Some,
        m.release_error(id) is Some,
        m.refund_error(id, now) is Some,
        m.withdraw_error(id, who, now) is Some,
        m.vote_error(id, who) is Some,
{
}

/// In a consistent state every pending invoice still misses some funds,
/// since the payment that completes an invoice releases it at once; so a
/// separate release is always refused.
pub proof fn law_release_is_refused_in_consistent_state(m: ContractModel, id: u64)
    requires
        m.wf(),
    ensures
        m.release_error(id) is Some,
        m.invoices.contains_key(id) && m.invoices[id].status == InvoiceStatus::Pending
            ==> m.invoices[id].funded < m.invoices[id].total(),
{
}

/// Releasing an invoice routes exactly its total out of the contract, each
/// recipient getting its own amount.
pub proof fn law_release_pays_out_the_total(inv: InvoiceModel)
    requires
        inv.wf(),
    ensures
        net_inflow(inv.payouts()) == -inv.total(),
        inv.payouts().len() == inv.recipients.len(),
        forall|i: int|
            0 <= i < inv.recipients.len() ==> #[trigger] inv.payouts()[i] == (Transfer::Payout {
                token: inv.token,
                to: inv.recipients[i],
                amount: inv.amounts[i],
            }),
{
    lemma_payouts_move_total(inv);
}

/// Refunding an invoice gives every payment back to its payer, and all the
/// funds leave the contract.
pub proof fn law_refund_returns_all_funds(inv: InvoiceModel)
    requires
        inv.wf(),
    ensures
        net_inflow(inv.refunds()) == -inv.funded,
        inv.refunds().len() == inv.payments.len(),
        forall|i: int|
            0 <= i < inv.payments.len() ==> #[trigger] inv.refunds()[i] == (Transfer::Payout {
                token: inv.token,
                to: inv.payments[i].payer,
                amount: inv.payments[i].amount,
            }),
{
    lemma_refunds_move_funded(inv);
}

/// Removing one payer's payments keeps what every other payer paid.
proof fn lemma_without_payer_keeps_others(p: Seq<Payment>, who: Address, other: Address)
    requires
        other != who,
    ensures
        paid_by(without_payer(p, who), other) == paid_by(p, other),
    decreases p.len(),
{
    if p.len() > 0 {
        lemma_without_payer_keeps_others(p.drop_last(), who, other);
        let w = without_payer(p.drop_last(), who);
        if p.last().payer != who {
            assert(w.push(p.last()).drop_last() =~= w);
        }
    }
}

/// An early withdrawal gives `who` back exactly what they paid, no more: it
/// leaves them no payment, keeps what every other payer paid, and the funds
/// fall by their share.
pub proof fn law_withdrawal_takes_back_only_own_share(inv: InvoiceModel, who: Address, other: Address)
    requires
        inv.wf(),
        other != who,
    ensures
        inv.without_contributions(who).funded == inv.funded - paid_by(inv.payments, who),
        !is_payer(inv.without_contributions(who).payments, who),
        paid_by(inv.without_contributions(who).payments, other) == paid_by(inv.payments, other),
        0 <= paid_by(inv.payments, who) <= inv.funded,
{
    lemma_without_payer(inv.payments, who);
    lemma_paid_by_bounds(inv.payments, who);
    lemma_without_payer_keeps_others(inv.payments, who, other);
}

/// A vote that was already cast changes nothing.
pub proof fn law_repeated_vote_is_ignored(m: ContractModel, id: u64, voter: Address)
    requires
        m.votes_for(id).contains(voter),
    ensures
        m.after_vote(id, voter) == m,
{
}

/// The payers a deadline vote is counted against are each payer exactly once:
/// the list holds no address twice, and holds an address just where it paid.
pub proof fn law_distinct_payers_are_the_payers(p: Seq<Payment>)
    ensures
        distinct_payers(p).no_duplicates(),
        forall|who: Address| #[trigger] distinct_payers(p).contains(who) <==> is_payer(p, who),
    decreases p.len(),
{
    if p.len() > 0 {
        let q = p.drop_last();
        law_distinct_payers_are_the_payers(q);
        let rest = distinct_payers(q);
        let x = p.last().payer;
        assert forall|who: Address| is_payer(p, who) <==> (is_payer(q, who) || x == who) by {
            if is_payer(p, who) {
                let k: int = choose|k: int| 0 <= k < p.len() && #[trigger] p[k].payer == who;
                if k < q.len() {
                    assert(q[k].payer == who);
                }
            }
            if is_payer(q, who) {
                let k: int = choose|k: int| 0 <= k < q.len() && #[trigger] q[k].payer == who;
                assert(p[k].payer == who);
            }
            if x == who {
                assert(p[p.len() - 1].payer == who);
            }
        }
        if !rest.contains(x) {
            let d = rest.push(x);
            assert forall|who: Address| d.contains(who) <==> (rest.contains(who) || x == who) by {
                if d.contains(who) {
                    let k: int = choose|k: int| 0 <= k < d.len() && d[k] == who;
                    if k < rest.len() {
                        assert(rest[k] == who);
                    }
                }
                if rest.contains(who) {
                    let k: int = choose|k: int| 0 <= k < rest.len() && rest[k] == who;
                    assert(d[k] == who);
                }
                if x == who {
                    assert(d[d.len() - 1] == who);
                }
            }
            assert forall|i: int, j: int| 0 <= i < d.len() && 0 <= j < d.len() && i != j implies d[i]
                != d[j] by {
                if i < rest.len() && j < rest.len() {
                    assert(d[i] == rest[i] && d[j] == rest[j]);
                } else if i < rest.len() {
                    assert(d[i] == rest[i]);
                } else if j < rest.len() {
                    assert(d[j] == rest[j]);
                }
            }
        }
    } else {
        assert forall|who: Address| !is_payer(p, who) by {}
    }
}

/// Invoice IDs strictly increase across calls and are never handed out
/// twice; with no other creation in between, the next ID is the last plus
/// one.
///
/// `states` are the ledger states one operation apart: creating an invoice
/// raises the counter by one and answers it, every other operation keeps
/// it. A creation at step `i` answered `a`, one at a later step `j` answered
/// `b`.
pub proof fn law_invoice_ids_increase(states: Seq<ContractModel>, i: int, j: int, a: u64, b: u64)
    requires
        forall|k: int| 0 <= k < states.len() - 1 ==> #[trigger] states[k].counter <= states[k + 1].counter,
        0 <= i < j < states.len(),
        a == states[i].counter + 1,
        states[i + 1].counter == a,
        b == states[j].counter + 1,
    ensures
        b > a,
        (forall|k: int| i < k < j ==> #[trigger] states[k].counter == states[k + 1].counter) ==> b == a + 1,
{
    lemma_counter_grows(states, i + 1, j);
    if forall|k: int| i < k < j ==> #[trigger] states[k].counter == states[k + 1].counter {
        lemma_counter_kept(states, i + 1, j);
    }
}

proof fn lemma_counter_grows(states: Seq<ContractModel>, i: int, j: int)
    requires
        forall|k: int| 0 <= k < states.len() - 1 ==> #[trigger] states[k].counter <= states[k + 1].counter,
        0 <= i <= j < states.len(),
    ensures
        states[i].counter <= states[j].counter,
    decreases j - i,
{
    if i < j {
        lemma_counter_grows(states, i, j - 1);
        assert(states[j - 1].counter <= states[j].counter);
    }
}

proof fn lemma_counter_kept(states: Seq<ContractModel>, i: int, j: int)
    requires
        forall|k: int| i <= k < j ==> #[trigger] states[k].counter == states[k + 1].counter,
        0 <= i <= j < states.len(),
    ensures
        states[i].counter == states[j].counter,
    decreases j - i,
{
    if i < j {
        lemma_counter_kept(states, i, j - 1);
        assert(states[j - 1].counter == states[j].counter);
    }
}

/// What a series of operations moves into the contract in `token`.
pub open spec fn total_inflow_in(flows: Seq<Seq<Transfer>>, token: Address) -> int
    decreases flows.len(),
{
    if flows.len() == 0 {
        0
    } else {
        total_inflow_in(flows.drop_last(), token) + net_inflow_in(flows.last(), token)
    }
}

/// The contract's holdings follow its transfers, token by token: over any
/// series of operations, what their transfers move into the contract in a
/// token is exactly how much more the contract then holds for its pending
/// invoices in that token. So a balance that covered the pending funds
/// before still covers them after, and from an empty ledger the contract has
/// received on balance exactly the funds of its pending invoices.
///
/// `states` are the ledger states one operation apart and `flows` the
/// transfers each answered (none for a creation or a vote); every operation
/// states its own step.
pub proof fn law_holdings_follow_transfers(
    states: Seq<ContractModel>,
    flows: Seq<Seq<Transfer>>,
    token: Address,
    balance: int,
)
    requires
        states.len() == flows.len() + 1,
        forall|k: int|
            0 <= k < flows.len() ==> #[trigger] net_inflow_in(flows[k], token) == states[k + 1].held_in(
                token,
            ) - states[k].held_in(token),
        balance >= states[0].held_in(token),
    ensures
        total_inflow_in(flows, token) == states.last().held_in(token) - states[0].held_in(token),
        balance + total_inflow_in(flows, token) >= states.last().held_in(token),
        states[0].counter == 0 ==> total_inflow_in(flows, token) == states.last().held_in(token),
    decreases flows.len(),
{
    if flows.len() > 0 {
        let (s, f) = (states.drop_last(), flows.drop_last());
        assert forall|k: int| 0 <= k < f.len() implies #[trigger] net_inflow_in(f[k], token)
            == s[k + 1].held_in(token) - s[k].held_in(token) by {
            assert(f[k] == flows[k] && s[k + 1] == states[k + 1] && s[k] == states[k]);
        }
        law_holdings_follow_transfers(s, f, token, balance);
        assert(net_inflow_in(flows[flows.len() - 1], token) == states[flows.len() as int].held_in(token)
            - states[flows.len() - 1].held_in(token));
    }
    if states[0].counter == 0 {
        assert(states[0].held_upto(token, 0) == 0);
    }
}

/// The votes stored for an invoice name each voter once, only payers of the
/// invoice, and so never more voters than it has distinct payers.
pub proof fn law_votes_are_distinct_payers(m: ContractModel, id: u64)
    requires
        m.wf(),
        m.invoices.contains_key(id),
    ensures
        m.votes_for(id).no_duplicates(),
        forall|a: Address| #[trigger]
            m.votes_for(id).contains(a) ==> is_payer(m.invoices[id].payments, a),
        m.votes_for(id).len() <= distinct_payers(m.invoices[id].payments).len(),
{
    let v = m.votes_for(id);
    let d = distinct_payers(m.invoices[id].payments);
    if !m.votes.contains_key(id) {
        assert(v.no_duplicates());
    }
    law_distinct_payers_are_the_payers(m.invoices[id].payments);
    v.unique_seq_to_set();
    d.unique_seq_to_set();
    assert(v.to_set().subset_of(d.to_set()));
    vstd::set_lib::lemma_len_subset(v.to_set(), d.to_set());
}

/// The addresses that made at least one payment.
pub open spec fn payers(p: Seq<Payment>) -> Set<Address> {
    Set::new(|a: Address| is_payer(p, a))
}

/// The distinct payers a vote is counted against are as many as the
/// addresses that paid.
proof fn lemma_distinct_payers_count(p: Seq<Payment>)
    ensures
        distinct_payers(p).len() == payers(p).len(),
{
    let d = distinct_payers(p);
    law_distinct_payers_are_the_payers(p);
    d.unique_seq_to_set();
    assert(d.to_set() =~= payers(p));
}

/// A new vote on a pending invoice extends its deadline by exactly seven
/// days, and clears the votes, just where the votes cast so far with this
/// one are more than half of the addresses that paid toward the invoice;
/// otherwise the deadline stays and the vote is recorded after the others.
pub proof fn law_vote_extends_exactly_at_strict_majority(m: ContractModel, id: u64, voter: Address)
    requires
        m.wf(),
        m.vote_error(id, voter) is None,
        !m.votes_for(id).contains(voter),
    ensures
        ({
            let after = m.after_vote(id, voter);
            let inv = m.invoices[id];
            let majority = m.votes_for(id).len() + 1 > payers(inv.payments).len() / 2;
            &&& after.invoices.contains_key(id)
            &&& after.invoices[id].deadline == if majority {
                inv.deadline + DEADLINE_EXTENSION_SECS
            } else {
                inv.deadline as int
            }
            &&& majority ==> !after.votes.contains_key(id)
            &&& !majority ==> after.votes_for(id) == m.votes_for(id).push(voter)
            &&& after.counter == m.counter
        }),
{
    lemma_distinct_payers_count(m.invoices[id].payments);
}

/// Another payment by an address that already paid leaves the payers as
/// they were, so it never changes whether a vote reaches the majority.
pub proof fn law_repeat_payment_keeps_payers(p: Seq<Payment>, x: Payment)
    requires
        is_payer(p, x.payer),
    ensures
        payers(p.push(x)) == payers(p),
{
    assert forall|a: Address| is_payer(p.push(x), a) == is_payer(p, a) by {
        if is_payer(p, a) {
            lemma_is_payer_push(p, x, a);
        }
        if is_payer(p.push(x), a) {
            let k: int = choose|k: int| 0 <= k < p.push(x).len() && #[trigger] p.push(x)[k].payer == a;
            if k < p.len() {
                assert(p[k].payer == a);
            }
        }
    }
    assert(payers(p.push(x)) =~= payers(p));
}

/// A payment on a pending invoice is accepted whenever the deadline has not
/// passed and the amount is positive and at most what is missing, whatever
/// else the ledger holds, votes included.
pub proof fn law_pay_accepted_when_payable(
    m: ContractModel,
    votes: Map<u64, Seq<Address>>,
    id: u64,
    amount: i128,
    now: u64,
)
    requires
        m.invoices.contains_key(id),
        m.invoices[id].status == InvoiceStatus::Pending,
        now <= m.invoices[id].deadline,
        0 < amount,
        amount <= m.invoices[id].total() - m.invoices[id].funded,
    ensures
        m.pay_error(id, amount, now) is None,
        (ContractModel { votes, ..m }).pay_error(id, amount, now) is None,
{
}

/// What refuses a payment depends on the invoice, the amount and the time
/// only, never on the stored votes.
pub proof fn law_pay_ignores_votes(
    m: ContractModel,
    votes: Map<u64, Seq<Address>>,
    id: u64,
    amount: i128,
    now: u64,
)
    ensures
        (ContractModel { votes, ..m }).pay_error(id, amount, now) == m.pay_error(id, amount, now),
{
}

/// A pending invoice whose deadline has passed is refunded on request,
/// whatever its other settings, early withdrawal included.
pub proof fn law_refund_accepted_after_deadline(m: ContractModel, id: u64, now: u64)
    requires
        m.invoices.contains_key(id),
        m.invoices[id].status == InvoiceStatus::Pending,
        now > m.invoices[id].deadline,
    ensures
        m.refund_error(id, now) is None,
{
}

/// A withdrawal by `payer` takes back only their own vote: every other
/// voter's vote stays, and `payer` has none left.
pub proof fn law_withdrawal_keeps_other_votes(m: ContractModel, id: u64, payer: Address, other: Address)
    requires
        m.invoices.contains_key(id),
        other != payer,
    ensures
        m.after_withdraw(id, payer).votes_for(id).contains(other) == m.votes_for(id).contains(other),
        !m.after_withdraw(id, payer).votes_for(id).contains(payer),
        forall|k: u64| k != id ==> #[trigger] m.after_withdraw(id, payer).votes_for(k) == m.votes_for(k),
{
    if m.votes.contains_key(id) {
        lemma_without_address(m.votes[id], payer);
    }
}

/// A new invoice keeps every argument as given: its creator, co-creators,
/// recipients, amounts, token, deadline and early-withdrawal setting; it
/// starts pending, with nothing paid.
pub proof fn law_created_invoice_keeps_arguments(
    creator: Address,
    co_creators: Seq<Address>,
    recipients: Seq<Address>,
    amounts: Seq<i128>,
    token: Address,
    deadline: u64,
    allow_early_withdrawal: bool,
)
    ensures
        ({
            let inv = new_invoice(
                creator,
                co_creators,
                recipients,
                amounts,
                token,
                deadline,
                allow_early_withdrawal,
            );
            &&& inv.creator == creator
            &&& inv.co_creators == co_creators
            &&& inv.recipients == recipients
            &&& inv.amounts == amounts
            &&& inv.token == token
            &&& inv.deadline == deadline
            &&& inv.allow_early_withdrawal == allow_early_withdrawal
            &&& inv.funded == 0
            &&& inv.status == InvoiceStatus::Pending
            &&& inv.payments.len() == 0
        }),
{
}

/// An invoice is created whenever recipients and amounts are parallel and
/// not empty, every amount is positive, the deadline lies ahead, and the
/// total and the next ID fit.
pub proof fn law_create_accepted_when_valid(
    m: ContractModel,
    recipients: Seq<Address>,
    amounts: Seq<i128>,
    deadline: u64,
    now: u64,
)
    requires
        recipients.len() == amounts.len(),
        amounts.len() > 0,
        forall|i: int| 0 <= i < amounts.len() ==> #[trigger] amounts[i] > 0,
        deadline > now,
        m.counter < u64::MAX,
        sum_amounts(amounts) <= i128::MAX,
    ensures
        m.create_error(recipients, amounts, deadline, now) is None,
{
    assert(all_positive(amounts));
}

/// A payer takes back their contributions on request while the invoice is
/// pending and allows it, up to and including the deadline.
pub proof fn law_withdraw_accepted_until_deadline(m: ContractModel, id: u64, payer: Address, now: u64)
    requires
        m.invoices.contains_key(id),
        m.invoices[id].status == InvoiceStatus::Pending,
        m.invoices[id].allow_early_withdrawal,
        now <= m.invoices[id].deadline,
        paid_by(m.invoices[id].payments, payer) > 0,
    ensures
        m.withdraw_error(id, payer, now) is None,
{
}

/// A payer's vote on a pending invoice is accepted, unless extending the
/// deadline would overflow; a vote by an address that never paid is refused.
pub proof fn law_vote_accepted_from_payers(m: ContractModel, id: u64, voter: Address)
    requires
        m.invoices.contains_key(id),
        m.invoices[id].status == InvoiceStatus::Pending,
    ensures
        is_payer(m.invoices[id].payments, voter) && m.invoices[id].deadline + DEADLINE_EXTENSION_SECS
            <= u64::MAX ==> m.vote_error(id, voter) is None,
        !is_payer(m.invoices[id].payments, voter) ==> m.vote_error(id, voter) is Some,
{
}

} // verus!
