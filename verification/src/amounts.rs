//! Sums over amounts and payments, and the loops that compute them.
use vstd::prelude::*;

use crate::types::{Address, Payment};

verus! {

/// The sum of a sequence of amounts.
pub open spec fn sum_amounts(s: Seq<i128>) -> int
    decreases s.len(),
{
    if s.len() == 0 {
        0
    } else {
        sum_amounts(s.drop_last()) + s.last()
    }
}

/// Every amount is strictly positive.
pub open spec fn all_positive(s: Seq<i128>) -> bool {
    forall|i: int| 0 <= i < s.len() ==> #[trigger] s[i] > 0
}

/// The sum of all payment amounts.
pub open spec fn paid_total(p: Seq<Payment>) -> int
    decreases p.len(),
{
    if p.len() == 0 {
        0
    } else {
        paid_total(p.drop_last()) + p.last().amount
    }
}

/// Every payment is of a strictly positive amount.
pub open spec fn payments_positive(p: Seq<Payment>) -> bool {
    forall|i: int| 0 <= i < p.len() ==> #[trigger] p[i].amount > 0
}

/// The sum of the payments made by `who`.
pub open spec fn paid_by(p: Seq<Payment>, who: Address) -> int
    decreases p.len(),
{
    if p.len() == 0 {
        0
    } else {
        paid_by(p.drop_last(), who) + if p.last().payer == who {
            p.last().amount as int
        } else {
            0
        }
    }
}

/// The payments that were not made by `who`, in their order.
pub open spec fn without_payer(p: Seq<Payment>, who: Address) -> Seq<Payment>
    decreases p.len(),
{
    if p.len() == 0 {
        p
    } else {
        let rest = without_payer(p.drop_last(), who);
        if p.last().payer == who {
            rest
        } else {
            rest.push(p.last())
        }
    }
}

/// `who` made at least one payment.
pub open spec fn is_payer(p: Seq<Payment>, who: Address) -> bool {
    exists|i: int| 0 <= i < p.len() && #[trigger] p[i].payer == who
}

/// Each payer once, in the order of their first payment.
pub open spec fn distinct_payers(p: Seq<Payment>) -> Seq<Address>
    decreases p.len(),
{
    if p.len() == 0 {
        Seq::empty()
    } else {
        let rest = distinct_payers(p.drop_last());
        if rest.contains(p.last().payer) {
            rest
        } else {
            rest.push(p.last().payer)
        }
    }
}

/// The addresses of `s` other than `who`, in their order.
pub open spec fn without_address(s: Seq<Address>, who: Address) -> Seq<Address>
    decreases s.len(),
{
    if s.len() == 0 {
        s
    } else {
        let rest = without_address(s.drop_last(), who);
        if s.last() == who {
            rest
        } else {
            rest.push(s.last())
        }
    }
}

/// A list of votes holds no address twice, and only addresses that paid.
pub open spec fn valid_votes(votes: Seq<Address>, p: Seq<Payment>) -> bool {
    &&& votes.no_duplicates()
    &&& forall|a: Address| #[trigger] votes.contains(a) ==> is_payer(p, a)
}

// ---------------------------------------------------------------------------
// Lemmas
// ---------------------------------------------------------------------------

/// A payer stays a payer when a payment is appended.
pub proof fn lemma_is_payer_push(p: Seq<Payment>, x: Payment, who: Address)
    requires
        is_payer(p, who),
    ensures
        is_payer(p.push(x), who),
{
    let k: int = choose|k: int| 0 <= k < p.len() && #[trigger] p[k].payer == who;
    assert(p.push(x)[k].payer == who);
}

/// Taking back the payments of `who` keeps every other payer a payer.
pub proof fn lemma_without_payer_keeps_payers(p: Seq<Payment>, who: Address, other: Address)
    requires
        other != who,
    ensures
        is_payer(without_payer(p, who), other) == is_payer(p, other),
    decreases p.len(),
{
    if p.len() > 0 {
        let q = p.drop_last();
        lemma_without_payer_keeps_payers(q, who, other);
        let wq = without_payer(q, who);
        let w = without_payer(p, who);
        if is_payer(p, other) {
            let k: int = choose|k: int| 0 <= k < p.len() && #[trigger] p[k].payer == other;
            if k < q.len() {
                assert(q[k].payer == other);
                let j: int = choose|j: int| 0 <= j < wq.len() && #[trigger] wq[j].payer == other;
                if p.last().payer != who {
                    assert(w[j] == wq[j]);
                }
            } else {
                assert(w[w.len() - 1].payer == other);
            }
        }
        if is_payer(w, other) {
            let k: int = choose|k: int| 0 <= k < w.len() && #[trigger] w[k].payer == other;
            if k < wq.len() {
                if p.last().payer != who {
                    assert(wq[k] == w[k]);
                }
                assert(wq[k].payer == other);
                let j: int = choose|j: int| 0 <= j < q.len() && #[trigger] q[j].payer == other;
                assert(p[j].payer == other);
            } else {
                assert(p[p.len() - 1].payer == other);
            }
        }
    }
}

/// Dropping `who` from a list keeps every other address and nothing else,
/// and adds no repeat.
pub proof fn lemma_without_address(s: Seq<Address>, who: Address)
    ensures
        forall|a: Address| #[trigger]
            without_address(s, who).contains(a) <==> (s.contains(a) && a != who),
        s.no_duplicates() ==> without_address(s, who).no_duplicates(),
    decreases s.len(),
{
    if s.len() > 0 {
        let q = s.drop_last();
        lemma_without_address(q, who);
        let wq = without_address(q, who);
        let w = without_address(s, who);
        assert forall|a: Address| s.contains(a) <==> (q.contains(a) || s.last() == a) by {
            if s.contains(a) {
                let k: int = choose|k: int| 0 <= k < s.len() && s[k] == a;
                if k < q.len() {
                    assert(q[k] == a);
                }
            }
            if q.contains(a) {
                let k: int = choose|k: int| 0 <= k < q.len() && q[k] == a;
                assert(s[k] == a);
            }
            if s.last() == a {
                assert(s[s.len() - 1] == a);
            }
        }
        if s.last() != who {
            assert forall|a: Address| w.contains(a) <==> (wq.contains(a) || s.last() == a) by {
                if w.contains(a) {
                    let k: int = choose|k: int| 0 <= k < w.len() && w[k] == a;
                    if k < wq.len() {
                        assert(wq[k] == a);
                    }
                }
                if wq.contains(a) {
                    let k: int = choose|k: int| 0 <= k < wq.len() && wq[k] == a;
                    assert(w[k] == a);
                }
                if s.last() == a {
                    assert(w[w.len() - 1] == a);
                }
            }
            if s.no_duplicates() {
                assert(q.no_duplicates()) by {
                    assert forall|i: int, j: int| 0 <= i < q.len() && 0 <= j < q.len() && i != j implies q[i]
                        != q[j] by {
                        assert(q[i] == s[i] && q[j] == s[j]);
                    }
                }
                assert(!q.contains(s.last())) by {
                    if q.contains(s.last()) {
                        let k: int = choose|k: int| 0 <= k < q.len() && q[k] == s.last();
                        assert(s[k] == s[s.len() - 1]);
                    }
                }
                lemma_push_keeps_distinct(wq, s.last());
            }
        } else if s.no_duplicates() {
            assert forall|i: int, j: int| 0 <= i < q.len() && 0 <= j < q.len() && i != j implies q[i]
                != q[j] by {
                assert(q[i] == s[i] && q[j] == s[j]);
            }
        }
    }
}

/// Appending an address that is not in a list of distinct addresses keeps
/// them distinct, and the list then holds exactly the old ones and the new.
pub proof fn lemma_push_keeps_distinct(s: Seq<Address>, x: Address)
    requires
        s.no_duplicates(),
        !s.contains(x),
    ensures
        s.push(x).no_duplicates(),
        forall|a: Address| #[trigger] s.push(x).contains(a) <==> (s.contains(a) || a == x),
{
    let d = s.push(x);
    assert forall|i: int, j: int| 0 <= i < d.len() && 0 <= j < d.len() && i != j implies d[i]
        != d[j] by {
        if i < s.len() && j < s.len() {
            assert(d[i] == s[i] && d[j] == s[j]);
        } else if i < s.len() {
            assert(d[i] == s[i]);
        } else if j < s.len() {
            assert(d[j] == s[j]);
        }
    }
    assert forall|a: Address| d.contains(a) <==> (s.contains(a) || a == x) by {
        if d.contains(a) {
            let k: int = choose|k: int| 0 <= k < d.len() && d[k] == a;
            if k < s.len() {
                assert(s[k] == a);
            }
        }
        if s.contains(a) {
            let k: int = choose|k: int| 0 <= k < s.len() && s[k] == a;
            assert(d[k] == a);
        }
        if a == x {
            assert(d[d.len() - 1] == a);
        }
    }
}

/// A prefix of positive amounts sums to no more than the whole.
pub proof fn lemma_sum_amounts_prefix(s: Seq<i128>, i: int)
    requires
        all_positive(s),
        0 <= i <= s.len(),
    ensures
        0 <= sum_amounts(s.take(i)) <= sum_amounts(s),
        i < s.len() ==> sum_amounts(s.take(i)) < sum_amounts(s),
    decreases s.len(),
{
    if s.len() == 0 {
        assert(s.take(i) =~= s);
    } else if i == s.len() {
        assert(s.take(i) =~= s);
        lemma_sum_amounts_prefix(s.drop_last(), i - 1);
        assert(s.drop_last().take(i - 1) =~= s.drop_last());
        assert(s[s.len() - 1] > 0);
    } else {
        lemma_sum_amounts_prefix(s.drop_last(), i);
        assert(s.drop_last().take(i) =~= s.take(i));
        assert(s[s.len() - 1] > 0);
    }
}

/// Extending a prefix by one element adds that element.
pub proof fn lemma_sum_amounts_step(s: Seq<i128>, i: int)
    requires
        0 <= i < s.len(),
    ensures
        sum_amounts(s.take(i + 1)) == sum_amounts(s.take(i)) + s[i],
{
    assert(s.take(i + 1).drop_last() =~= s.take(i));
}

/// A prefix of positive payments sums to no more than the whole.
pub proof fn lemma_paid_total_prefix(p: Seq<Payment>, i: int)
    requires
        payments_positive(p),
        0 <= i <= p.len(),
    ensures
        0 <= paid_total(p.take(i)) <= paid_total(p),
        i < p.len() ==> paid_total(p.take(i)) < paid_total(p),
    decreases p.len(),
{
    if p.len() == 0 {
        assert(p.take(i) =~= p);
    } else if i == p.len() {
        assert(p.take(i) =~= p);
        lemma_paid_total_prefix(p.drop_last(), i - 1);
        assert(p.drop_last().take(i - 1) =~= p.drop_last());
        assert(p[p.len() - 1].amount > 0);
    } else {
        lemma_paid_total_prefix(p.drop_last(), i);
        assert(p.drop_last().take(i) =~= p.take(i));
        assert(p[p.len() - 1].amount > 0);
    }
}

/// What one payer paid is between nothing and what all paid.
pub proof fn lemma_paid_by_bounds(p: Seq<Payment>, who: Address)
    requires
        payments_positive(p),
    ensures
        0 <= paid_by(p, who) <= paid_total(p),
        paid_by(p, who) > 0 <==> is_payer(p, who),
    decreases p.len(),
{
    if p.len() > 0 {
        let q = p.drop_last();
        assert(payments_positive(q)) by {
            assert forall|i: int| 0 <= i < q.len() implies #[trigger] q[i].amount > 0 by {
                assert(q[i] == p[i]);
            }
        }
        lemma_paid_by_bounds(q, who);
        assert(p[p.len() - 1].amount > 0);
        if is_payer(q, who) {
            let k: int = choose|k: int| 0 <= k < q.len() && #[trigger] q[k].payer == who;
            assert(p[k].payer == who);
        }
        if is_payer(p, who) && p.last().payer != who {
            let k: int = choose|k: int| 0 <= k < p.len() && #[trigger] p[k].payer == who;
            assert(q[k].payer == who);
        }
    }
}

/// Splitting off one payer's payments: the rest and theirs add up to the whole,
/// the rest stay positive and hold nothing of theirs.
pub proof fn lemma_without_payer(p: Seq<Payment>, who: Address)
    requires
        payments_positive(p),
    ensures
        paid_total(p) == paid_total(without_payer(p, who)) + paid_by(p, who),
        payments_positive(without_payer(p, who)),
        !is_payer(without_payer(p, who), who),
        paid_by(without_payer(p, who), who) == 0,
    decreases p.len(),
{
    let w = without_payer(p, who);
    if p.len() > 0 {
        let q = p.drop_last();
        assert(payments_positive(q)) by {
            assert forall|i: int| 0 <= i < q.len() implies #[trigger] q[i].amount > 0 by {
                assert(q[i] == p[i]);
            }
        }
        lemma_without_payer(q, who);
        let wq = without_payer(q, who);
        if p.last().payer != who {
            assert(w == wq.push(p.last()));
            assert(w.drop_last() =~= wq);
            assert(p[p.len() - 1].amount > 0);
            assert forall|i: int| 0 <= i < w.len() implies #[trigger] w[i].amount > 0 by {
                if i < wq.len() {
                    assert(w[i] == wq[i]);
                }
            }
            if is_payer(w, who) {
                let k: int = choose|k: int| 0 <= k < w.len() && #[trigger] w[k].payer == who;
                assert(wq[k].payer == who);
            }
        }
    }
    lemma_paid_by_bounds(w, who);
}

// ---------------------------------------------------------------------------
// Loops
// ---------------------------------------------------------------------------

/// Whether every amount is strictly positive.
pub fn amounts_all_positive(v: &Vec<i128>) -> (r: bool)
    ensures
        r == all_positive(v@),
{
    for i in 0..v.len()
        invariant
            forall|j: int| 0 <= j < i ==> #[trigger] v@[j] > 0,
    {
        if v[i] <= 0 {
            return false;
        }
    }
    true
}

/// The sum of positive amounts, or `None` where it does not fit in `i128`.
pub fn sum_positive_amounts(v: &Vec<i128>) -> (r: Option<i128>)
    requires
        all_positive(v@),
    ensures
        match r {
            Some(t) => t == sum_amounts(v@),
            None => sum_amounts(v@) > i128::MAX,
        },
{
    let mut acc: i128 = 0;
    for i in 0..v.len()
        invariant
            all_positive(v@),
            acc == sum_amounts(v@.take(i as int)),
    {
        proof {
            lemma_sum_amounts_step(v@, i as int);
        }
        match acc.checked_add(v[i]) {
            Some(next) => {
                acc = next;
            },
            None => {
                proof {
                    lemma_sum_amounts_prefix(v@, i + 1);
                }
                return None;
            },
        }
    }
    assert(v@.take(v.len() as int) =~= v@);
    Some(acc)
}

/// Whether every payment is of a strictly positive amount.
pub fn payments_all_positive(p: &Vec<Payment>) -> (r: bool)
    ensures
        r == payments_positive(p@),
{
    for i in 0..p.len()
        invariant
            forall|j: int| 0 <= j < i ==> #[trigger] p@[j].amount > 0,
    {
        if p[i].amount <= 0 {
            return false;
        }
    }
    true
}

/// The sum of positive payments, or `None` where it does not fit in `i128`.
pub fn sum_positive_payments(p: &Vec<Payment>) -> (r: Option<i128>)
    requires
        payments_positive(p@),
    ensures
        match r {
            Some(t) => t == paid_total(p@),
            None => paid_total(p@) > i128::MAX,
        },
{
    let mut acc: i128 = 0;
    for i in 0..p.len()
        invariant
            payments_positive(p@),
            acc == paid_total(p@.take(i as int)),
    {
        assert(p@.take(i + 1).drop_last() =~= p@.take(i as int));
        match acc.checked_add(p[i].amount) {
            Some(next) => {
                acc = next;
            },
            None => {
                proof {
                    lemma_paid_total_prefix(p@, i + 1);
                }
                return None;
            },
        }
    }
    assert(p@.take(p.len() as int) =~= p@);
    Some(acc)
}

/// The sum of the payments made by `who`.
pub fn payer_total(p: &Vec<Payment>, who: Address) -> (r: i128)
    requires
        payments_positive(p@),
        paid_total(p@) <= i128::MAX,
    ensures
        r == paid_by(p@, who),
{
    let mut acc: i128 = 0;
    for i in 0..p.len()
        invariant
            payments_positive(p@),
            paid_total(p@) <= i128::MAX,
            acc == paid_by(p@.take(i as int), who),
    {
        let q = Ghost(p@.take(i + 1));
        assert(q@.drop_last() =~= p@.take(i as int));
        proof {
            lemma_paid_total_prefix(p@, i + 1);
            assert(payments_positive(q@)) by {
                assert forall|j: int| 0 <= j < q@.len() implies #[trigger] q@[j].amount > 0 by {
                    assert(q@[j] == p@[j]);
                }
            }
            lemma_paid_by_bounds(q@, who);
        }
        if p[i].payer == who {
            acc = acc + p[i].amount;
        }
    }
    assert(p@.take(p.len() as int) =~= p@);
    acc
}

/// The payments that were not made by `who`, in their order.
pub fn remove_payer(p: &Vec<Payment>, who: Address) -> (r: Vec<Payment>)
    ensures
        r@ == without_payer(p@, who),
{
    let mut kept: Vec<Payment> = Vec::new();
    for i in 0..p.len()
        invariant
            kept@ == without_payer(p@.take(i as int), who),
    {
        assert(p@.take(i + 1).drop_last() =~= p@.take(i as int));
        if p[i].payer != who {
            kept.push(p[i]);
        }
    }
    assert(p@.take(p.len() as int) =~= p@);
    kept
}

/// Whether `who` made at least one payment.
pub fn has_paid(p: &Vec<Payment>, who: Address) -> (r: bool)
    ensures
        r == is_payer(p@, who),
{
    for i in 0..p.len()
        invariant
            forall|j: int| 0 <= j < i ==> #[trigger] p@[j].payer != who,
    {
        if p[i].payer == who {
            return true;
        }
    }
    false
}

/// Whether `a` occurs in `v`.
pub fn contains_address(v: &Vec<Address>, a: Address) -> (r: bool)
    ensures
        r == v@.contains(a),
{
    for i in 0..v.len()
        invariant
            forall|j: int| 0 <= j < i ==> #[trigger] v@[j] != a,
    {
        if v[i] == a {
            return true;
        }
    }
    false
}

/// Each payer once, in the order of their first payment.
pub fn unique_payers(p: &Vec<Payment>) -> (r: Vec<Address>)
    ensures
        r@ == distinct_payers(p@),
{
    let mut seen: Vec<Address> = Vec::new();
    for i in 0..p.len()
        invariant
            seen@ == distinct_payers(p@.take(i as int)),
    {
        assert(p@.take(i + 1).drop_last() =~= p@.take(i as int));
        if !contains_address(&seen, p[i].payer) {
            seen.push(p[i].payer);
        }
    }
    assert(p@.take(p.len() as int) =~= p@);
    seen
}

/// The addresses of `v` other than `who`, in their order.
pub fn remove_address(v: &Vec<Address>, who: Address) -> (r: Vec<Address>)
    ensures
        r@ == without_address(v@, who),
{
    let mut kept: Vec<Address> = Vec::new();
    for i in 0..v.len()
        invariant
            kept@ == without_address(v@.take(i as int), who),
    {
        assert(v@.take(i + 1).drop_last() =~= v@.take(i as int));
        if v[i] != who {
            kept.push(v[i]);
        }
    }
    assert(v@.take(v.len() as int) =~= v@);
    kept
}

/// Whether a list of votes holds no address twice, and only addresses that
/// paid.
pub fn votes_are_valid(votes: &Vec<Address>, p: &Vec<Payment>) -> (r: bool)
    ensures
        r == valid_votes(votes@, p@),
{
    for i in 0..votes.len()
        invariant
            forall|k: int| 0 <= k < i ==> is_payer(p@, #[trigger] votes@[k]),
            forall|k: int, l: int| 0 <= k < i && 0 <= l < i && k != l ==> votes@[k] != votes@[l],
    {
        if !has_paid(p, votes[i]) {
            proof {
                assert(votes@.contains(votes@[i as int]));
            }
            return false;
        }
        for j in 0..i
            invariant
                i < votes.len(),
                forall|l: int| 0 <= l < j ==> votes@[l] != votes@[i as int],
        {
            if votes[j] == votes[i] {
                return false;
            }
        }
    }
    proof {
        assert forall|a: Address| #[trigger] votes@.contains(a) implies is_payer(p@, a) by {
            let k: int = choose|k: int| 0 <= k < votes@.len() && votes@[k] == a;
            assert(is_payer(p@, votes@[k]));
        }
    }
    true
}

/// An element-for-element copy.
pub fn copy_vec<T: Copy>(v: &Vec<T>) -> (r: Vec<T>)
    ensures
        r@ == v@,
{
    let mut out: Vec<T> = Vec::new();
    for i in 0..v.len()
        invariant
            out@ == v@.take(i as int),
    {
        out.push(v[i]);
        assert(out@ =~= v@.take(i + 1));
    }
    assert(v@.take(v.len() as int) =~= v@);
    out
}

} // verus!
