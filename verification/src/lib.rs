//! StellarSplit: invoice and payment splitting.
//!
//! A creator defines an invoice with several recipients and the amount owed
//! to each. Payers contribute funds; once the invoice is fully funded the
//! funds are routed to every recipient. If the deadline passes before that,
//! every payer gets back what they paid. Payers may withdraw early when the
//! invoice allows it, and may vote to push the deadline back by a week.
//!
//! The crate holds the contract's ledger state and its decisions. Every
//! operation takes the ledger time as an argument and answers with the token
//! transfers that the host has to carry out.

pub mod amounts;
pub mod types;
pub mod invoice;
pub mod model;
pub mod contract;
pub mod laws;

pub use types::{Address, Invoice, InvoiceModel, InvoiceStatus, Payment, SplitError, Transfer};
pub use contract::SplitContract;
pub use model::{ContractModel, DEADLINE_EXTENSION_SECS};
