# rustify_app

The core of a debt-splitting web application for groups: validation of
everything users type, and the computation of who owes whom inside a group.
The library under `src/` is written in Verus and every function in it carries
a contract that Verus proves; `app/` is the thin HTTP server around it.

## Layout

- `src/text.rs` – whitespace and control-code normalisation of user text
  (`sanitize_string`), UTF-8 byte lengths, and the laws that a sanitised text
  is clean, no longer than its input and a fixed point of sanitising.
- `src/email.rs` – the e-mail address grammar, decided by `is_valid_email`.
- `src/money.rs` – exact decimal amounts as (mantissa, scale) pairs; the
  arithmetic, parsing, rounding and printing are `rust_decimal`'s, reached
  through small trusted wrappers.
- `src/validation.rs` – names, descriptions, usernames, passwords, e-mail
  addresses and amounts, each with an error for every way it can be refused.
- `src/ledger.rs` – the pairwise debt ledger built from shared debts and
  payments; it is proved antisymmetric, with one entry per pair of members and no
  debt of anyone to themselves; a payment of exactly what is owed settles
  the pair.
- `src/balances.rs` – each member's list of debts and credits and net
  position, read off the ledger; the two sides of every relationship agree,
  and totals in cents are the exact sums of the listed debts.
- `src/transactions.rs` – the rules for recording a payment: membership of
  both parties, only the payer may change or delete it, amounts kept to
  the cent.
- `src/forms.rs` – the decisions behind the forms: the name-sorted list of
  users offered as members, ticking a member in or out, and the checks a
  payment form makes before sending.
- `src/pages.rs` – what the group pages decide: the ids their routes name,
  who is offered which controls, the paths and labels they show, the items
  a shopping list shows and the requests their forms send.
- `tests/` – the original examples and further cases.
- `app/` – the axum server, session store and database access.
