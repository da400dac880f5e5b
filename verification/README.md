# split

Invoice and payment splitting.

A creator defines an invoice with several recipients and the amount owed to
each. Payers contribute funds; the payment that completes the invoice releases
it and pays every recipient its amount. After the deadline an unfunded invoice
is refunded, every payment going back to its payer. Where the invoice allows
it, a payer may take back everything it paid up to the deadline, and its vote
then no longer counts; payers may also vote to push the deadline back by seven
days, which happens once a strict majority of the distinct payers voted.

Layout:

- `src/types.rs`: addresses, statuses, payments, invoices, transfers, refusals.
- `src/amounts.rs`: sums over amounts and payments, with their lemmas and loops.
- `src/invoice.rs`: the value of an invoice, its consistency, and the
  transfers that settling it moves.
- `src/model.rs`: the mathematical ledger state, what each operation refuses
  and leaves behind, and what the contract holds in each token.
- `src/contract.rs`: the ledger state (`SplitContract`) and every operation,
  each stated as an exact function of the state before, the arguments and the
  ledger time.
- `src/laws.rs`: properties of the contract as a whole.
- `app/`: the Soroban contract: authorisation, persistent storage, token
  transfers and events around the library.
- `tests/`: scenarios and the rules on concrete values.
