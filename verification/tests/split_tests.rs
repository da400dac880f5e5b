use split::{Address, InvoiceStatus, SplitContract, SplitError, Transfer};
use std::collections::HashMap;

// ---------------------------------------------------------------------------
// Test helpers
// ---------------------------------------------------------------------------

/// The account that stands for the contract in the token balances below.
const CONTRACT: u64 = u64::MAX;

/// Token balances, moved by the transfers that the contract answers.
struct Token {
    balances: HashMap<u64, i128>,
}

impl Token {
    fn new() -> Token {
        Token { balances: HashMap::new() }
    }

    fn mint(&mut self, to: &Address, amount: i128) {
        *self.balances.entry(to.id).or_insert(0) += amount;
    }

    fn balance(&self, who: &Address) -> i128 {
        *self.balances.get(&who.id).unwrap_or(&0)
    }

    fn apply(&mut self, transfers: &[Transfer]) {
        for t in transfers {
            let (from, to, amount) = match *t {
                Transfer::Deposit { from, amount, .. } => (from.id, CONTRACT, amount),
                Transfer::Payout { to, amount, .. } => (CONTRACT, to.id, amount),
            };
            let have = *self.balances.get(&from).unwrap_or(&0);
            assert!(have >= amount, "insufficient balance");
            *self.balances.entry(from).or_insert(0) -= amount;
            *self.balances.entry(to).or_insert(0) += amount;
        }
    }
}

struct Setup {
    c: SplitContract,
    tk: Token,
    token_id: Address,
    next: u64,
    now: u64,
}

impl Setup {
    fn generate(&mut self) -> Address {
        self.next += 1;
        Address::new(self.next)
    }
}

fn setup() -> Setup {
    let mut tk = Token::new();
    let token_admin = Address::new(1);
    tk.mint(&token_admin, 1_000_000_000);
    Setup { c: SplitContract::new(), tk, token_id: Address::new(2), next: 2, now: 0 }
}

fn fail(e: SplitError) -> ! {
    panic!("{}", e.message())
}

/// Helper: create a basic invoice with no co-creators and no early withdrawal.
fn make_invoice(
    s: &mut Setup,
    creator: &Address,
    recipient: &Address,
    amount: i128,
    deadline: u64,
) -> u64 {
    let token = s.token_id;
    let now = s.now;
    s.c.create_invoice(*creator, vec![*recipient], vec![amount], token, deadline, vec![], false, now)
        .unwrap_or_else(|e| fail(e))
}

fn pay(s: &mut Setup, payer: &Address, id: u64, amount: i128) {
    let now = s.now;
    let ts = s.c.pay(*payer, id, amount, now).unwrap_or_else(|e| fail(e));
    s.tk.apply(&ts);
}

fn refund(s: &mut Setup, id: u64) {
    let now = s.now;
    let ts = s.c.refund(id, now).unwrap_or_else(|e| fail(e));
    s.tk.apply(&ts);
}

fn withdraw(s: &mut Setup, id: u64, payer: &Address) {
    let now = s.now;
    let t = s.c.withdraw(id, *payer, now).unwrap_or_else(|e| fail(e));
    s.tk.apply(&[t]);
}

fn vote(s: &mut Setup, id: u64, voter: &Address) {
    s.c.vote_extend_deadline(id, *voter).unwrap_or_else(|e| fail(e));
}

// ---------------------------------------------------------------------------
// Scenarios
// ---------------------------------------------------------------------------

#[test]
fn test_create_invoice() {
    let mut s = setup();
    let creator = s.generate();
    let recipient = s.generate();

    s.now = 1_000;

    let id = make_invoice(&mut s, &creator, &recipient, 100, 2_000);
    assert_eq!(id, 1);

    let invoice = s.c.get_invoice(id).unwrap();
    assert_eq!(invoice.status, InvoiceStatus::Pending);
    assert_eq!(invoice.funded, 0);
}

#[test]
fn test_pay_and_auto_release() {
    let mut s = setup();
    let creator = s.generate();
    let payer = s.generate();
    let recipient = s.generate();

    s.tk.mint(&payer, 500);
    s.now = 1_000;

    let id = make_invoice(&mut s, &creator, &recipient, 200, 9_999);
    pay(&mut s, &payer, id, 200_i128);

    let invoice = s.c.get_invoice(id).unwrap();
    assert_eq!(invoice.status, InvoiceStatus::Released);
    assert_eq!(s.tk.balance(&recipient), 200);
}

#[test]
fn test_partial_pay_then_release() {
    let mut s = setup();
    let creator = s.generate();
    let payer1 = s.generate();
    let payer2 = s.generate();
    let recipient = s.generate();

    s.tk.mint(&payer1, 150);
    s.tk.mint(&payer2, 150);
    s.now = 1_000;

    let id = make_invoice(&mut s, &creator, &recipient, 300, 9_999);

    pay(&mut s, &payer1, id, 150_i128);
    assert_eq!(s.c.get_invoice(id).unwrap().status, InvoiceStatus::Pending);

    pay(&mut s, &payer2, id, 150_i128);
    assert_eq!(s.c.get_invoice(id).unwrap().status, InvoiceStatus::Released);
    assert_eq!(s.tk.balance(&recipient), 300);
}

#[test]
fn test_refund_after_deadline() {
    let mut s = setup();
    let creator = s.generate();
    let payer = s.generate();
    let recipient = s.generate();

    s.tk.mint(&payer, 100);
    s.now = 1_000;

    let id = make_invoice(&mut s, &creator, &recipient, 500, 2_000);
    pay(&mut s, &payer, id, 100_i128);

    s.now = 3_000;
    refund(&mut s, id);

    assert_eq!(s.c.get_invoice(id).unwrap().status, InvoiceStatus::Refunded);
    assert_eq!(s.tk.balance(&payer), 100);
}

#[test]
#[should_panic(expected = "invoice deadline has passed")]
fn test_pay_after_deadline_panics() {
    let mut s = setup();
    let creator = s.generate();
    let payer = s.generate();
    let recipient = s.generate();

    s.tk.mint(&payer, 100);
    s.now = 1_000;

    let id = make_invoice(&mut s, &creator, &recipient, 100, 2_000);
    s.now = 3_000;
    pay(&mut s, &payer, id, 100_i128);
}

#[test]
#[should_panic(expected = "payment exceeds remaining balance")]
fn test_overpayment_panics() {
    let mut s = setup();
    let creator = s.generate();
    let payer = s.generate();
    let recipient = s.generate();

    s.tk.mint(&payer, 1_000);
    s.now = 1_000;

    let id = make_invoice(&mut s, &creator, &recipient, 100, 9_999);
    pay(&mut s, &payer, id, 200_i128);
}

#[test]
fn test_multi_recipient_release() {
    let mut s = setup();
    let creator = s.generate();
    let payer = s.generate();
    let r1 = s.generate();
    let r2 = s.generate();
    let r3 = s.generate();

    s.tk.mint(&payer, 600);
    s.now = 1_000;

    let recipients = vec![r1, r2, r3];
    let amounts = vec![100_i128, 200_i128, 300_i128];

    let token = s.token_id;
    let id = s
        .c
        .create_invoice(creator, recipients, amounts, token, 9_999_u64, vec![], false, s.now)
        .unwrap();
    pay(&mut s, &payer, id, 600_i128);

    assert_eq!(s.tk.balance(&r1), 100);
    assert_eq!(s.tk.balance(&r2), 200);
    assert_eq!(s.tk.balance(&r3), 300);
}

#[test]
fn test_verify_invoice_pending() {
    let mut s = setup();
    let creator = s.generate();
    let recipient = s.generate();
    s.now = 1_000;

    let id = make_invoice(&mut s, &creator, &recipient, 100, 9_999);

    assert!(s.c.verify_invoice(id, InvoiceStatus::Pending));
    assert!(!s.c.verify_invoice(id, InvoiceStatus::Released));
    assert!(!s.c.verify_invoice(id, InvoiceStatus::Refunded));
}

#[test]
fn test_verify_invoice_released() {
    let mut s = setup();
    let creator = s.generate();
    let payer = s.generate();
    let recipient = s.generate();

    s.tk.mint(&payer, 100);
    s.now = 1_000;

    let id = make_invoice(&mut s, &creator, &recipient, 100, 9_999);
    pay(&mut s, &payer, id, 100_i128);

    assert!(s.c.verify_invoice(id, InvoiceStatus::Released));
    assert!(!s.c.verify_invoice(id, InvoiceStatus::Pending));
}

#[test]
fn test_verify_invoice_refunded() {
    let mut s = setup();
    let creator = s.generate();
    let payer = s.generate();
    let recipient = s.generate();

    s.tk.mint(&payer, 50);
    s.now = 1_000;

    let id = make_invoice(&mut s, &creator, &recipient, 100, 2_000);
    pay(&mut s, &payer, id, 50_i128);
    s.now = 3_000;
    refund(&mut s, id);

    assert!(s.c.verify_invoice(id, InvoiceStatus::Refunded));
    assert!(!s.c.verify_invoice(id, InvoiceStatus::Pending));
}

#[test]
fn test_verify_invoice_nonexistent_returns_false() {
    let s = setup();

    assert!(!s.c.verify_invoice(999_u64, InvoiceStatus::Pending));
}

#[test]
fn test_early_withdrawal_success() {
    let mut s = setup();
    let creator = s.generate();
    let payer = s.generate();
    let recipient = s.generate();

    s.tk.mint(&payer, 200);
    s.now = 1_000;

    let token = s.token_id;
    let id = s
        .c
        .create_invoice(
            creator,
            vec![recipient],
            vec![500_i128],
            token,
            9_999_u64,
            vec![],
            true, // allow_early_withdrawal
            s.now,
        )
        .unwrap();

    pay(&mut s, &payer, id, 200_i128);
    assert_eq!(s.c.get_invoice(id).unwrap().funded, 200);
    assert_eq!(s.tk.balance(&payer), 0);

    withdraw(&mut s, id, &payer);

    let invoice = s.c.get_invoice(id).unwrap();
    assert_eq!(invoice.funded, 0);
    assert_eq!(s.tk.balance(&payer), 200);
}

#[test]
#[should_panic(expected = "early withdrawal not allowed")]
fn test_early_withdrawal_not_allowed_panics() {
    let mut s = setup();
    let creator = s.generate();
    let payer = s.generate();
    let recipient = s.generate();

    s.tk.mint(&payer, 100);
    s.now = 1_000;

    let id = make_invoice(&mut s, &creator, &recipient, 500, 9_999);
    pay(&mut s, &payer, id, 100_i128);
    withdraw(&mut s, id, &payer);
}

#[test]
fn test_co_creator_can_call_creator_gated_action() {
    // Co-creator permission is checked by `is_authorized_creator`: create an
    // invoice with a co-creator, then confirm the co-creator field is stored.
    let mut s = setup();
    let creator = s.generate();
    let co_creator = s.generate();
    let recipient = s.generate();

    s.now = 1_000;

    let token = s.token_id;
    let id = s
        .c
        .create_invoice(creator, vec![recipient], vec![100_i128], token, 9_999_u64, vec![co_creator], false, s.now)
        .unwrap();

    let invoice = s.c.get_invoice(id).unwrap();
    assert!(invoice.co_creators.contains(&co_creator));
    assert_eq!(invoice.co_creators.len(), 1);
    assert!(SplitContract::is_authorized_creator(&invoice, &co_creator));
    assert!(SplitContract::is_authorized_creator(&invoice, &creator));
    assert!(!SplitContract::is_authorized_creator(&invoice, &recipient));
}

#[test]
fn test_empty_co_creators_behaves_normally() {
    let mut s = setup();
    let creator = s.generate();
    let recipient = s.generate();
    s.now = 1_000;

    let id = make_invoice(&mut s, &creator, &recipient, 100, 9_999);
    let invoice = s.c.get_invoice(id).unwrap();
    assert_eq!(invoice.co_creators.len(), 0);
}

#[test]
fn test_vote_extend_deadline_majority_triggers_extension() {
    let mut s = setup();
    let creator = s.generate();
    let payer1 = s.generate();
    let payer2 = s.generate();
    let payer3 = s.generate();
    let recipient = s.generate();

    s.tk.mint(&payer1, 100);
    s.tk.mint(&payer2, 100);
    s.tk.mint(&payer3, 100);

    s.now = 1_000;

    // needs 400 total, each pays 100 (partial)
    let id = make_invoice(&mut s, &creator, &recipient, 400, 9_999);

    pay(&mut s, &payer1, id, 100_i128);
    pay(&mut s, &payer2, id, 100_i128);
    pay(&mut s, &payer3, id, 100_i128);

    let original_deadline = s.c.get_invoice(id).unwrap().deadline;

    // 1st vote — no majority yet (1 of 3)
    vote(&mut s, id, &payer1);
    assert_eq!(s.c.get_invoice(id).unwrap().deadline, original_deadline);

    // 2nd vote — majority reached (2 of 3 > 50%)
    vote(&mut s, id, &payer2);
    let new_deadline = s.c.get_invoice(id).unwrap().deadline;
    assert_eq!(new_deadline, original_deadline + 7 * 24 * 60 * 60);
}

#[test]
fn test_vote_extend_deadline_duplicate_vote_ignored() {
    let mut s = setup();
    let creator = s.generate();
    let payer1 = s.generate();
    let payer2 = s.generate();
    let payer3 = s.generate();
    let recipient = s.generate();

    s.tk.mint(&payer1, 100);
    s.tk.mint(&payer2, 100);
    s.tk.mint(&payer3, 100);

    s.now = 1_000;

    let id = make_invoice(&mut s, &creator, &recipient, 400, 9_999);

    pay(&mut s, &payer1, id, 100_i128);
    pay(&mut s, &payer2, id, 100_i128);
    pay(&mut s, &payer3, id, 100_i128);

    let original_deadline = s.c.get_invoice(id).unwrap().deadline;

    // payer1 votes twice — second should be ignored
    vote(&mut s, id, &payer1);
    vote(&mut s, id, &payer1);

    // Still no majority (only 1 unique vote)
    assert_eq!(s.c.get_invoice(id).unwrap().deadline, original_deadline);
}

#[test]
#[should_panic(expected = "only payers can vote")]
fn test_vote_extend_deadline_non_payer_panics() {
    let mut s = setup();
    let creator = s.generate();
    let payer = s.generate();
    let non_payer = s.generate();
    let recipient = s.generate();

    s.tk.mint(&payer, 100);
    s.now = 1_000;

    let id = make_invoice(&mut s, &creator, &recipient, 400, 9_999);
    pay(&mut s, &payer, id, 100_i128);
    vote(&mut s, id, &non_payer);
}
