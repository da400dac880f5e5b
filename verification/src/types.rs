use vstd::prelude::*;

verus! {

/// An account or contract on the ledger, known by a numeric identity.
///
/// The logic only ever compares addresses and hands them to transfers, so
/// the identity is all it keeps.
#[derive(Clone, Copy, Debug, PartialEq, Eq, Hash, Structural)]
pub struct Address {
    pub id: u64,
}

impl Address {
    pub fn new(id: u64) -> (a: Address)
        ensures
            a.id == id,
    {
        Address { id }
    }
}

/// Status of an invoice lifecycle.
#[derive(Clone, Copy, Debug, PartialEq, Eq, Structural)]
pub enum InvoiceStatus {
    /// Invoice created, awaiting full payment.
    Pending,
    /// All shares paid; funds released to recipients.
    Released,
    /// Deadline passed before full funding; payers refunded.
    Refunded,
}

/// A single payment made toward an invoice.
#[derive(Clone, Copy, Debug, PartialEq, Eq, Structural)]
pub struct Payment {
    /// Address of the payer.
    pub payer: Address,
    /// Amount paid in stroops (7 decimal places).
    pub amount: i128,
}

/// A token movement that the host carries out in the invoice's token.
#[derive(Clone, Copy, Debug, PartialEq, Eq, Structural)]
pub enum Transfer {
    /// `amount` moves from `from` into the contract.
    Deposit { token: Address, from: Address, amount: i128 },
    /// `amount` moves from the contract to `to`.
    Payout { token: Address, to: Address, amount: i128 },
}

/// Why a request was refused. Each refusal leaves the ledger state as it was.
#[derive(Clone, Copy, Debug, PartialEq, Eq, Structural)]
pub enum SplitError {
    InvoiceNotFound,
    LengthMismatch,
    NoRecipients,
    DeadlineNotInFuture,
    NonPositiveAmount,
    NotPending,
    DeadlinePassed,
    NonPositivePayment,
    ExceedsRemaining,
    NotFullyFunded,
    DeadlineNotPassed,
    EarlyWithdrawalNotAllowed,
    NoContributions,
    NotAPayer,
    ArithmeticOverflow,
}

/// The text of each refusal.
pub open spec fn error_text(e: SplitError) -> Seq<char> {
    match e {
        SplitError::InvoiceNotFound => "invoice not found"@,
        SplitError::LengthMismatch => "recipients and amounts length mismatch"@,
        SplitError::NoRecipients => "must have at least one recipient"@,
        SplitError::DeadlineNotInFuture => "deadline must be in the future"@,
        SplitError::NonPositiveAmount => "amounts must be positive"@,
        SplitError::NotPending => "invoice is not pending"@,
        SplitError::DeadlinePassed => "invoice deadline has passed"@,
        SplitError::NonPositivePayment => "payment amount must be positive"@,
        SplitError::ExceedsRemaining => "payment exceeds remaining balance"@,
        SplitError::NotFullyFunded => "invoice not fully funded"@,
        SplitError::DeadlineNotPassed => "deadline has not passed"@,
        SplitError::EarlyWithdrawalNotAllowed => "early withdrawal not allowed"@,
        SplitError::NoContributions => "no contributions to withdraw"@,
        SplitError::NotAPayer => "only payers can vote"@,
        SplitError::ArithmeticOverflow => "arithmetic overflow"@,
    }
}

impl SplitError {
    /// The message with which the request is refused.
    pub fn message(&self) -> (m: &'static str)
        ensures
            m@ == error_text(*self),
    {
        match self {
            SplitError::InvoiceNotFound => "invoice not found",
            SplitError::LengthMismatch => "recipients and amounts length mismatch",
            SplitError::NoRecipients => "must have at least one recipient",
            SplitError::DeadlineNotInFuture => "deadline must be in the future",
            SplitError::NonPositiveAmount => "amounts must be positive",
            SplitError::NotPending => "invoice is not pending",
            SplitError::DeadlinePassed => "invoice deadline has passed",
            SplitError::NonPositivePayment => "payment amount must be positive",
            SplitError::ExceedsRemaining => "payment exceeds remaining balance",
            SplitError::NotFullyFunded => "invoice not fully funded",
            SplitError::DeadlineNotPassed => "deadline has not passed",
            SplitError::EarlyWithdrawalNotAllowed => "early withdrawal not allowed",
            SplitError::NoContributions => "no contributions to withdraw",
            SplitError::NotAPayer => "only payers can vote",
            SplitError::ArithmeticOverflow => "arithmetic overflow",
        }
    }
}

/// An on-chain invoice splitting payment among multiple recipients.
#[derive(Debug)]
pub struct Invoice {
    /// Address that created the invoice.
    pub creator: Address,
    /// Optional co-creators who share creator-gated permissions.
    pub co_creators: Vec<Address>,
    /// Ordered list of recipient addresses.
    pub recipients: Vec<Address>,
    /// Amounts owed to each recipient (parallel to `recipients`).
    pub amounts: Vec<i128>,
    /// Token contract address.
    pub token: Address,
    /// Unix timestamp after which unfunded invoices can be refunded.
    pub deadline: u64,
    /// Total amount collected so far.
    pub funded: i128,
    /// Current lifecycle status.
    pub status: InvoiceStatus,
    /// All payments made toward this invoice.
    pub payments: Vec<Payment>,
    /// Whether payers can withdraw their contribution before the deadline.
    pub allow_early_withdrawal: bool,
}

/// The mathematical value of an invoice.
#[verifier::ext_equal]
pub struct InvoiceModel {
    pub creator: Address,
    pub co_creators: Seq<Address>,
    pub recipients: Seq<Address>,
    pub amounts: Seq<i128>,
    pub token: Address,
    pub deadline: u64,
    pub funded: i128,
    pub status: InvoiceStatus,
    pub payments: Seq<Payment>,
    pub allow_early_withdrawal: bool,
}

impl View for Invoice {
    type V = InvoiceModel;

    open spec fn view(&self) -> InvoiceModel {
        InvoiceModel {
            creator: self.creator,
            co_creators: self.co_creators@,
            recipients: self.recipients@,
            amounts: self.amounts@,
            token: self.token,
            deadline: self.deadline,
            funded: self.funded,
            status: self.status,
            payments: self.payments@,
            allow_early_withdrawal: self.allow_early_withdrawal,
        }
    }
}

} // verus!
