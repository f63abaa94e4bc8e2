//! The debt ledger of a group: who owes whom how much, built from the
//! group's shared debts (each participant owes the creator an equal share)
//! and its direct transactions (a payment lowers the payer's debt to the
//! recipient).
use vstd::prelude::*;

use crate::money::{
    cents_value, checked_add, checked_div, checked_sub, decimal_difference, decimal_from_str,
    decimal_quotient, decimal_sum, fits_mantissa, lemma_cents_difference, lemma_cents_sum,
    negated_opt, parse_decimal, spec_zero, Amount,
};

verus! {

/// A member of the group.
#[derive(Clone, Debug)]
pub struct Member {
    pub id: i64,
    pub username: String,
}

/// A shared debt: `amount` (as stored, a decimal text) paid by
/// `creator_id` and shared equally among `participants`.
#[derive(Clone, Debug)]
pub struct SharedDebtRecord {
    pub creator_id: i64,
    pub amount: String,
    pub participants: Vec<i64>,
}

/// A direct payment of `amount` (as stored, a decimal text) from
/// `payer_id` to `recipient_id`.
#[derive(Clone, Debug)]
pub struct TransactionRecord {
    pub payer_id: i64,
    pub recipient_id: i64,
    pub amount: String,
}

/// What `debtor` owes `creditor`; a negative amount means the creditor owes
/// the debtor.
#[derive(Clone, Copy, Debug, PartialEq, Eq, Structural)]
pub struct DebtEntry {
    pub debtor: i64,
    pub creditor: i64,
    pub amount: Amount,
}

/// Why the ledger could not be computed.
#[derive(Clone, Debug, PartialEq, Eq)]
pub enum BalanceError {
    /// A stored amount is not a decimal number; `message` is the parser's.
    InvalidAmount { message: String },
    /// A sum or share does not fit in a decimal.
    Overflow,
}

/// `BalanceError` with its message taken by its view.
pub enum LedgerFailure {
    InvalidAmount(Seq<char>),
    Overflow,
}

/// The view of an error.
pub open spec fn failure_of(e: BalanceError) -> LedgerFailure {
    match e {
        BalanceError::InvalidAmount { message } => LedgerFailure::InvalidAmount(message@),
        BalanceError::Overflow => LedgerFailure::Overflow,
    }
}

/// The view of a ledger result.
pub open spec fn ledger_result(r: Result<Vec<DebtEntry>, BalanceError>) -> Result<
    Seq<DebtEntry>,
    LedgerFailure,
> {
    match r {
        Ok(v) => Ok(v@),
        Err(e) => Err(failure_of(e)),
    }
}

/// `u` is the id of some member.
pub open spec fn is_member(members: Seq<Member>, u: i64) -> bool {
    exists|k: int| 0 <= k < members.len() && #[trigger] members[k].id == u
}

/// Index of the first entry for the pair (`u`, `o`), or -1.
pub open spec fn entry_index(es: Seq<DebtEntry>, u: i64, o: i64) -> int
    decreases es.len(),
{
    if es.len() == 0 {
        -1
    } else {
        let k = entry_index(es.drop_last(), u, o);
        if k >= 0 {
            k
        } else if es.last().debtor == u && es.last().creditor == o {
            es.len() - 1
        } else {
            -1
        }
    }
}

/// What `u` owes `o` (zero when nothing is recorded).
pub open spec fn balance_between(es: Seq<DebtEntry>, u: i64, o: i64) -> Amount {
    let k = entry_index(es, u, o);
    if k >= 0 {
        es[k].amount
    } else {
        spec_zero()
    }
}

/// Raises (`increase`) or lowers what `u` owes `o` by `delta`, recording
/// the pair at the end if it is new; `None` on overflow.
pub open spec fn adjusted(es: Seq<DebtEntry>, u: i64, o: i64, delta: Amount, increase: bool) -> Option<
    Seq<DebtEntry>,
> {
    let k = entry_index(es, u, o);
    let cur = balance_between(es, u, o);
    let next = if increase {
        decimal_sum(cur, delta)
    } else {
        decimal_difference(cur, delta)
    };
    match next {
        None => None,
        Some(v) => Some(
            if k >= 0 {
                es.update(k, DebtEntry { debtor: u, creditor: o, amount: v })
            } else {
                es.push(DebtEntry { debtor: u, creditor: o, amount: v })
            },
        ),
    }
}

/// `adjusted`, for a debtor who is a member; others have no account.
pub open spec fn adjusted_for_member(
    members: Seq<Member>,
    es: Seq<DebtEntry>,
    u: i64,
    o: i64,
    delta: Amount,
    increase: bool,
) -> Option<Seq<DebtEntry>> {
    if is_member(members, u) {
        adjusted(es, u, o, delta, increase)
    } else {
        Some(es)
    }
}

/// Adjusts both sides of the debt between `u` and `o` by `delta`: what `u`
/// owes `o` is raised (`raise_first`) or lowered, then what `o` owes `u`
/// is moved the other way.
pub open spec fn paired_adjustment(
    members: Seq<Member>,
    es: Seq<DebtEntry>,
    u: i64,
    o: i64,
    delta: Amount,
    raise_first: bool,
) -> Option<Seq<DebtEntry>> {
    match adjusted_for_member(members, es, u, o, delta, raise_first) {
        None => None,
        Some(es1) => adjusted_for_member(members, es1, o, u, delta, !raise_first),
    }
}

/// `participant` owes `creator` one more `share`, and the creator is owed
/// it; the creator owes nothing to themselves.
pub open spec fn after_share(
    members: Seq<Member>,
    es: Seq<DebtEntry>,
    participant: i64,
    creator: i64,
    share: Amount,
) -> Option<Seq<DebtEntry>> {
    if participant == creator {
        Some(es)
    } else {
        paired_adjustment(members, es, participant, creator, share, true)
    }
}

/// `after_share` for each participant in turn.
pub open spec fn after_shares(
    members: Seq<Member>,
    es: Seq<DebtEntry>,
    creator: i64,
    share: Amount,
    ps: Seq<i64>,
) -> Option<Seq<DebtEntry>>
    decreases ps.len(),
{
    if ps.len() == 0 {
        Some(es)
    } else {
        match after_shares(members, es, creator, share, ps.drop_last()) {
            None => None,
            Some(es1) => after_share(members, es1, ps.last(), creator, share),
        }
    }
}

/// The ledger after a shared debt of `amount` created by `creator` and
/// shared among `ps`: each participant owes `amount / ps.len()`.
pub open spec fn after_shared_debt(
    members: Seq<Member>,
    es: Seq<DebtEntry>,
    creator: i64,
    amount: Seq<char>,
    ps: Seq<i64>,
) -> Result<Seq<DebtEntry>, LedgerFailure> {
    match decimal_from_str(amount) {
        Err(msg) => Err(LedgerFailure::InvalidAmount(msg)),
        Ok(total) => if ps.len() == 0 {
            Ok(es)
        } else {
            match decimal_quotient(total, Amount { mantissa: ps.len() as i128, scale: 0 }) {
                None => Err(LedgerFailure::Overflow),
                Some(share) => match after_shares(members, es, creator, share, ps) {
                    None => Err(LedgerFailure::Overflow),
                    Some(es2) => Ok(es2),
                },
            }
        },
    }
}

/// The ledger after `payer` paid `amount` to `recipient`: the payer owes
/// the recipient that much less, and the recipient owes the payer that
/// much more.
pub open spec fn after_transaction(
    members: Seq<Member>,
    es: Seq<DebtEntry>,
    payer: i64,
    recipient: i64,
    amount: Seq<char>,
) -> Result<Seq<DebtEntry>, LedgerFailure> {
    match decimal_from_str(amount) {
        Err(msg) => Err(LedgerFailure::InvalidAmount(msg)),
        Ok(a) => match paired_adjustment(members, es, payer, recipient, a, false) {
            None => Err(LedgerFailure::Overflow),
            Some(es2) => Ok(es2),
        },
    }
}

/// The shared debts applied in order.
pub open spec fn after_shared_debts(
    members: Seq<Member>,
    es: Seq<DebtEntry>,
    debts: Seq<SharedDebtRecord>,
) -> Result<Seq<DebtEntry>, LedgerFailure>
    decreases debts.len(),
{
    if debts.len() == 0 {
        Ok(es)
    } else {
        match after_shared_debts(members, es, debts.drop_last()) {
            Err(e) => Err(e),
            Ok(es1) => after_shared_debt(
                members,
                es1,
                debts.last().creator_id,
                debts.last().amount@,
                debts.last().participants@,
            ),
        }
    }
}

/// The transactions applied in order.
pub open spec fn after_transactions(
    members: Seq<Member>,
    es: Seq<DebtEntry>,
    txs: Seq<TransactionRecord>,
) -> Result<Seq<DebtEntry>, LedgerFailure>
    decreases txs.len(),
{
    if txs.len() == 0 {
        Ok(es)
    } else {
        match after_transactions(members, es, txs.drop_last()) {
            Err(e) => Err(e),
            Ok(es1) => after_transaction(
                members,
                es1,
                txs.last().payer_id,
                txs.last().recipient_id,
                txs.last().amount@,
            ),
        }
    }
}

/// The ledger of a group: its shared debts, then its transactions.
pub open spec fn ledger_of(
    members: Seq<Member>,
    debts: Seq<SharedDebtRecord>,
    txs: Seq<TransactionRecord>,
) -> Result<Seq<DebtEntry>, LedgerFailure> {
    match after_shared_debts(members, Seq::empty(), debts) {
        Err(e) => Err(e),
        Ok(es) => after_transactions(members, es, txs),
    }
}

/// Every recorded amount is a representable decimal.
pub open spec fn amounts_wf(es: Seq<DebtEntry>) -> bool {
    forall|i: int| 0 <= i < es.len() ==> (#[trigger] es[i]).amount.wf()
}

/// No pair (debtor, creditor) is recorded twice.
pub open spec fn pairs_unique(es: Seq<DebtEntry>) -> bool {
    forall|i: int, j: int|
        0 <= i < j < es.len() ==> !((#[trigger] es[i]).debtor == (#[trigger] es[j]).debtor
            && es[i].creditor == es[j].creditor)
}

/// Between any two distinct members, each side of the debt is recorded
/// exactly when the other is, and what one owes the other is the negation
/// of what the other owes the one.
pub open spec fn antisymmetric(members: Seq<Member>, es: Seq<DebtEntry>) -> bool {
    forall|u: i64, o: i64|
        #![trigger balance_between(es, u, o), balance_between(es, o, u)]
        is_member(members, u) && is_member(members, o) && u != o ==> (entry_index(es, u, o) >= 0
            <==> entry_index(es, o, u) >= 0) && balance_between(es, o, u) == balance_between(
            es,
            u,
            o,
        ).negated()
}

/// `a` and `b` have at most two decimal places, and their values and the
/// result of moving `a` by `b` (down when `lower`) fit, in hundredths.
pub open spec fn cents_step(a: Amount, b: Amount, lower: bool) -> bool {
    &&& a.scale <= 2 && b.scale <= 2
    &&& fits_mantissa(cents_value(a)) && fits_mantissa(cents_value(b))
    &&& fits_mantissa(
        if lower {
            cents_value(a) - cents_value(b)
        } else {
            cents_value(a) + cents_value(b)
        },
    )
}

/// How many times `p` occurs in `ps`.
pub open spec fn occurrences(ps: Seq<i64>, p: i64) -> int
    decreases ps.len(),
{
    if ps.len() == 0 {
        0
    } else {
        occurrences(ps.drop_last(), p) + (if ps.last() == p {
            1int
        } else {
            0int
        })
    }
}

/// `b` and `share` have at most two decimal places, and `b`, `share` and
/// `b` raised by `k` shares fit, in hundredths.
pub open spec fn shares_fit(b: Amount, share: Amount, k: int) -> bool {
    &&& b.scale <= 2 && share.scale <= 2
    &&& fits_mantissa(cents_value(b)) && fits_mantissa(cents_value(share))
    &&& fits_mantissa(cents_value(b) + k * cents_value(share))
}

/// Nobody owes themselves anything.
pub open spec fn no_self_debt(es: Seq<DebtEntry>) -> bool {
    forall|u: i64| #[trigger] balance_between(es, u, u).is_zero()
}

/// What the ledger maintains: representable amounts, one entry per pair,
/// antisymmetry between members, and no debt of anyone to themselves.
pub open spec fn ledger_inv(members: Seq<Member>, es: Seq<DebtEntry>) -> bool {
    amounts_wf(es) && pairs_unique(es) && antisymmetric(members, es) && no_self_debt(es)
}

// ---------------------------------------------------------------------------
// Lemmas about entry lookup


/// `entry_index` finds the first entry for the pair, or reports that
/// there is none.
pub proof fn lemma_entry_index(es: Seq<DebtEntry>, u: i64, o: i64)
    ensures
        -1 <= entry_index(es, u, o) < es.len(),
        entry_index(es, u, o) >= 0 ==> es[entry_index(es, u, o)].debtor == u
            && es[entry_index(es, u, o)].creditor == o,
        entry_index(es, u, o) >= 0 ==> forall|j: int|
            0 <= j < entry_index(es, u, o) ==> !(es[j].debtor == u && es[j].creditor == o),
        entry_index(es, u, o) < 0 ==> forall|j: int|
            0 <= j < es.len() ==> !(es[j].debtor == u && es[j].creditor == o),
    decreases es.len(),
{
    if es.len() > 0 {
        lemma_entry_index(es.drop_last(), u, o);
        assert forall|j: int| 0 <= j < es.len() - 1 implies es[j] == es.drop_last()[j] by {}
    }
}

/// Sequences with the same keys at the same places find the same index.
proof fn lemma_entry_index_same_keys(a: Seq<DebtEntry>, b: Seq<DebtEntry>, u: i64, o: i64)
    requires
        a.len() == b.len(),
        forall|i: int|
            0 <= i < a.len() ==> (#[trigger] a[i]).debtor == b[i].debtor && a[i].creditor
                == b[i].creditor,
    ensures
        entry_index(a, u, o) == entry_index(b, u, o),
    decreases a.len(),
{
    if a.len() > 0 {
        assert forall|i: int| 0 <= i < a.drop_last().len() implies (
        #[trigger] a.drop_last()[i]).debtor == b.drop_last()[i].debtor && a.drop_last()[i].creditor
            == b.drop_last()[i].creditor by {
            assert(a.drop_last()[i] == a[i] && b.drop_last()[i] == b[i]);
        }
        lemma_entry_index_same_keys(a.drop_last(), b.drop_last(), u, o);
        assert(a.last() == a[a.len() - 1]);
    }
}

/// Effect of `adjusted` on every pair: the adjusted pair holds the new
/// value, every other pair keeps its place and value.
proof fn lemma_adjusted(es: Seq<DebtEntry>, u: i64, o: i64, delta: Amount, increase: bool)
    requires
        adjusted(es, u, o, delta, increase) is Some,
    ensures
        ({
            let es2 = adjusted(es, u, o, delta, increase).unwrap();
            let v = if increase {
                decimal_sum(balance_between(es, u, o), delta)
            } else {
                decimal_difference(balance_between(es, u, o), delta)
            }.unwrap();
            &&& entry_index(es2, u, o) >= 0
            &&& balance_between(es2, u, o) == v
            &&& forall|x: i64, y: i64|
                !(x == u && y == o) ==> #[trigger] entry_index(es2, x, y) == entry_index(es, x, y)
                    && balance_between(es2, x, y) == balance_between(es, x, y)
            &&& es2.len() >= es.len()
            &&& forall|i: int| 0 <= i < es2.len() ==> (#[trigger] es2[i]) == es[i]
                || es2[i] == DebtEntry { debtor: u, creditor: o, amount: v }
            &&& (pairs_unique(es) ==> pairs_unique(es2))
        }),
{
    let k = entry_index(es, u, o);
    let es2 = adjusted(es, u, o, delta, increase).unwrap();
    let v = if increase {
        decimal_sum(balance_between(es, u, o), delta)
    } else {
        decimal_difference(balance_between(es, u, o), delta)
    }.unwrap();
    let e = DebtEntry { debtor: u, creditor: o, amount: v };
    lemma_entry_index(es, u, o);
    if k >= 0 {
        assert(es2 == es.update(k, e));
        assert forall|x: i64, y: i64| !(x == u && y == o) implies #[trigger] entry_index(es2, x, y)
            == entry_index(es, x, y) && balance_between(es2, x, y) == balance_between(es, x, y) by {
            lemma_entry_index_same_keys(es2, es, x, y);
            lemma_entry_index(es, x, y);
        }
        lemma_entry_index_same_keys(es2, es, u, o);
        if pairs_unique(es) {
            assert forall|i: int, j: int| 0 <= i < j < es2.len() implies !((#[trigger] es2[i]).debtor
                == (#[trigger] es2[j]).debtor && es2[i].creditor == es2[j].creditor) by {
                assert(es2[i].debtor == es[i].debtor && es2[i].creditor == es[i].creditor);
                assert(es2[j].debtor == es[j].debtor && es2[j].creditor == es[j].creditor);
                assert(!(es[i].debtor == es[j].debtor && es[i].creditor == es[j].creditor));
            }
        }
    } else {
        assert(es2 == es.push(e));
        assert(es2.drop_last() =~= es);
        assert forall|x: i64, y: i64| !(x == u && y == o) implies #[trigger] entry_index(es2, x, y)
            == entry_index(es, x, y) && balance_between(es2, x, y) == balance_between(es, x, y) by {
            lemma_entry_index(es, x, y);
            if entry_index(es, x, y) >= 0 {
                assert(es2[entry_index(es, x, y)] == es[entry_index(es, x, y)]);
            }
        }
        assert(entry_index(es2, u, o) == es.len());
        if pairs_unique(es) {
            assert forall|i: int, j: int| 0 <= i < j < es2.len() implies !((#[trigger] es2[i]).debtor
                == (#[trigger] es2[j]).debtor && es2[i].creditor == es2[j].creditor) by {
                if j == es.len() {
                    assert(es2[i] == es[i]);
                } else {
                    assert(es2[i] == es[i] && es2[j] == es[j]);
                }
            }
        }
    }
}

/// `adjusted_for_member` in terms of `adjusted`: nothing changes for a
/// debtor who is not a member.
proof fn lemma_adjusted_for_member(
    members: Seq<Member>,
    es: Seq<DebtEntry>,
    u: i64,
    o: i64,
    delta: Amount,
    increase: bool,
)
    requires
        adjusted_for_member(members, es, u, o, delta, increase) is Some,
    ensures
        ({
            let es2 = adjusted_for_member(members, es, u, o, delta, increase).unwrap();
            &&& !is_member(members, u) ==> es2 == es
            &&& is_member(members, u) ==> {
                let v = if increase {
                    decimal_sum(balance_between(es, u, o), delta)
                } else {
                    decimal_difference(balance_between(es, u, o), delta)
                }.unwrap();
                &&& entry_index(es2, u, o) >= 0
                &&& balance_between(es2, u, o) == v
            }
            &&& forall|x: i64, y: i64|
                !(x == u && y == o) ==> #[trigger] entry_index(es2, x, y) == entry_index(es, x, y)
                    && balance_between(es2, x, y) == balance_between(es, x, y)
            &&& (pairs_unique(es) ==> pairs_unique(es2))
        }),
{
    if is_member(members, u) {
        lemma_adjusted(es, u, o, delta, increase);
    }
}

/// A paired adjustment keeps each pair recorded once and keeps the debts
/// between members antisymmetric, given the sign symmetry of rust_decimal's
/// addition and subtraction on the pair's current amount.
proof fn lemma_paired_keeps_inv(
    members: Seq<Member>,
    es: Seq<DebtEntry>,
    u: i64,
    o: i64,
    delta: Amount,
    raise_first: bool,
)
    requires
        pairs_unique(es),
        antisymmetric(members, es),
        paired_adjustment(members, es, u, o, delta, raise_first) is Some,
        amounts_wf(paired_adjustment(members, es, u, o, delta, raise_first).unwrap()),
        is_member(members, u) && raise_first ==> negated_opt(
            decimal_sum(balance_between(es, u, o), delta),
        ) == decimal_difference(balance_between(es, u, o).negated(), delta),
        is_member(members, u) && !raise_first ==> negated_opt(
            decimal_difference(balance_between(es, u, o), delta),
        ) == decimal_sum(balance_between(es, u, o).negated(), delta),
    ensures
        pairs_unique(paired_adjustment(members, es, u, o, delta, raise_first).unwrap()),
        antisymmetric(members, paired_adjustment(members, es, u, o, delta, raise_first).unwrap()),
{
    let es1 = adjusted_for_member(members, es, u, o, delta, raise_first).unwrap();
    let es2 = adjusted_for_member(members, es1, o, u, delta, !raise_first).unwrap();
    lemma_adjusted_for_member(members, es, u, o, delta, raise_first);
    lemma_adjusted_for_member(members, es1, o, u, delta, !raise_first);
    assert forall|x: i64, y: i64|
        is_member(members, x) && is_member(members, y) && x != y implies (entry_index(es2, x, y)
        >= 0 <==> entry_index(es2, y, x) >= 0) && #[trigger] balance_between(es2, y, x)
        == #[trigger] balance_between(es2, x, y).negated() by {
        assert(balance_between(es, y, x) == balance_between(es, x, y).negated());
        assert(balance_between(es, x, y) == balance_between(es, y, x).negated());
        if (x == u && y == o) || (x == o && y == u) {
            let b = balance_between(es, u, o);
            assert(balance_between(es1, o, u) == balance_between(es, o, u));
            assert(balance_between(es, o, u) == b.negated());
            let v1 = balance_between(es1, u, o);
            assert(balance_between(es2, u, o) == v1);
            assert(entry_index(es2, u, o) == entry_index(es1, u, o));
            if raise_first {
                assert(decimal_sum(b, delta) == Some(v1));
                assert(decimal_difference(b.negated(), delta) == Some(v1.negated()));
            } else {
                assert(decimal_difference(b, delta) == Some(v1));
                assert(decimal_sum(b.negated(), delta) == Some(v1.negated()));
            }
            assert(balance_between(es2, o, u) == v1.negated());
            lemma_entry_index(es2, u, o);
            assert(es2[entry_index(es2, u, o)].amount.wf());
            assert(v1.negated().negated() == v1);
        } else {
            assert(entry_index(es1, x, y) == entry_index(es, x, y));
            assert(entry_index(es1, y, x) == entry_index(es, y, x));
            assert(balance_between(es1, x, y) == balance_between(es, x, y));
            assert(balance_between(es1, y, x) == balance_between(es, y, x));
        }
    }
}

// ---------------------------------------------------------------------------
// Executable ledger

/// Whether some member has id `u`.
fn is_member_id(members: &Vec<Member>, u: i64) -> (r: bool)
    ensures
        r == is_member(members@, u),
{
    let mut i: usize = 0;
    while i < members.len()
        invariant
            i <= members@.len(),
            forall|k: int| 0 <= k < i ==> (#[trigger] members@[k]).id != u,
        decreases members@.len() - i,
    {
        if members[i].id == u {
            return true;
        }
        i = i + 1;
    }
    false
}

/// Index of the entry for (`u`, `o`), if there is one.
fn find_entry(es: &Vec<DebtEntry>, u: i64, o: i64) -> (r: Option<usize>)
    ensures
        match r {
            Some(k) => k as int == entry_index(es@, u, o),
            None => entry_index(es@, u, o) == -1,
        },
{
    proof {
        lemma_entry_index(es@, u, o);
    }
    let mut i: usize = 0;
    while i < es.len()
        invariant
            i <= es@.len(),
            forall|j: int| 0 <= j < i ==> !(es@[j].debtor == u && es@[j].creditor == o),
            -1 <= entry_index(es@, u, o) < es@.len(),
            entry_index(es@, u, o) >= 0 ==> es@[entry_index(es@, u, o)].debtor == u
                && es@[entry_index(es@, u, o)].creditor == o,
            entry_index(es@, u, o) >= 0 ==> forall|j: int|
                0 <= j < entry_index(es@, u, o) ==> !(es@[j].debtor == u && es@[j].creditor == o),
            entry_index(es@, u, o) < 0 ==> forall|j: int|
                0 <= j < es@.len() ==> !(es@[j].debtor == u && es@[j].creditor == o),
        decreases es@.len() - i,
    {
        if es[i].debtor == u && es[i].creditor == o {
            return Some(i);
        }
        i = i + 1;
    }
    None
}

/// The view of an optional ledger.
pub open spec fn opt_entries(r: Option<Vec<DebtEntry>>) -> Option<Seq<DebtEntry>> {
    match r {
        Some(v) => Some(v@),
        None => None,
    }
}

/// Raises or lowers what `u` owes `o` by `delta`.
fn adjust(es: Vec<DebtEntry>, u: i64, o: i64, delta: Amount, increase: bool) -> (r: Option<
    Vec<DebtEntry>,
>)
    requires
        amounts_wf(es@),
        delta.wf(),
    ensures
        opt_entries(r) == adjusted(es@, u, o, delta, increase),
        r matches Some(v) ==> amounts_wf(v@),
        increase ==> negated_opt(decimal_sum(balance_between(es@, u, o), delta))
            == decimal_difference(balance_between(es@, u, o).negated(), delta),
        !increase ==> negated_opt(decimal_difference(balance_between(es@, u, o), delta))
            == decimal_sum(balance_between(es@, u, o).negated(), delta),
        !increase && balance_between(es@, u, o) == delta ==> decimal_difference(delta, delta)
            == Some(Amount { mantissa: 0, scale: delta.scale }),
        balance_between(es@, u, o).is_zero() ==> (if increase {
            decimal_sum(balance_between(es@, u, o), delta) == Some(delta)
        } else {
            decimal_difference(balance_between(es@, u, o), delta) == Some(delta.negated())
        }),
        balance_between(es@, u, o) == delta.negated() && increase ==> decimal_sum(
            delta.negated(),
            delta,
        ) == Some(Amount { mantissa: 0, scale: delta.scale }),
        !increase && cents_step(balance_between(es@, u, o), delta, true) ==> (decimal_difference(
            balance_between(es@, u, o),
            delta,
        ) matches Some(z) && z.scale <= 2 && cents_value(z) == cents_value(
            balance_between(es@, u, o),
        ) - cents_value(delta)),
        increase && cents_step(balance_between(es@, u, o), delta, false) ==> (decimal_sum(
            balance_between(es@, u, o),
            delta,
        ) matches Some(z) && z.scale <= 2 && cents_value(z) == cents_value(
            balance_between(es@, u, o),
        ) + cents_value(delta)),
{
    let mut es = es;
    let found = find_entry(&es, u, o);
    proof {
        lemma_entry_index(es@, u, o);
    }
    let cur = match found {
        Some(k) => es[k].amount,
        None => Amount::zero(),
    };
    let next = if increase {
        checked_add(cur, delta)
    } else {
        checked_sub(cur, delta)
    };
    proof {
        if !increase && cents_step(cur, delta, true) {
            lemma_cents_difference(cur, delta, next);
        }
        if increase && cents_step(cur, delta, false) {
            lemma_cents_sum(cur, delta, next);
        }
    }
    match next {
        None => None,
        Some(v) => {
            let e = DebtEntry { debtor: u, creditor: o, amount: v };
            match found {
                Some(k) => {
                    es.set(k, e);
                },
                None => {
                    es.push(e);
                },
            }
            Some(es)
        },
    }
}

/// `adjust` for a debtor who is a member; nothing changes otherwise.
fn adjust_for_member(
    members: &Vec<Member>,
    es: Vec<DebtEntry>,
    u: i64,
    o: i64,
    delta: Amount,
    increase: bool,
) -> (r: Option<Vec<DebtEntry>>)
    requires
        amounts_wf(es@),
        delta.wf(),
    ensures
        opt_entries(r) == adjusted_for_member(members@, es@, u, o, delta, increase),
        r matches Some(v) ==> amounts_wf(v@),
        is_member(members@, u) && increase ==> negated_opt(
            decimal_sum(balance_between(es@, u, o), delta),
        ) == decimal_difference(balance_between(es@, u, o).negated(), delta),
        is_member(members@, u) && !increase ==> negated_opt(
            decimal_difference(balance_between(es@, u, o), delta),
        ) == decimal_sum(balance_between(es@, u, o).negated(), delta),
        is_member(members@, u) && !increase && balance_between(es@, u, o) == delta
            ==> decimal_difference(delta, delta) == Some(Amount { mantissa: 0, scale: delta.scale }),
        is_member(members@, u) && balance_between(es@, u, o).is_zero() ==> (if increase {
            decimal_sum(balance_between(es@, u, o), delta) == Some(delta)
        } else {
            decimal_difference(balance_between(es@, u, o), delta) == Some(delta.negated())
        }),
        is_member(members@, u) && balance_between(es@, u, o) == delta.negated() && increase
            ==> decimal_sum(delta.negated(), delta) == Some(
            Amount { mantissa: 0, scale: delta.scale },
        ),
        is_member(members@, u) && !increase && cents_step(balance_between(es@, u, o), delta, true)
            ==> (decimal_difference(balance_between(es@, u, o), delta) matches Some(z) && z.scale
            <= 2 && cents_value(z) == cents_value(balance_between(es@, u, o)) - cents_value(delta)),
        is_member(members@, u) && increase && cents_step(balance_between(es@, u, o), delta, false)
            ==> (decimal_sum(balance_between(es@, u, o), delta) matches Some(z) && z.scale <= 2
            && cents_value(z) == cents_value(balance_between(es@, u, o)) + cents_value(delta)),
{
    if is_member_id(members, u) {
        adjust(es, u, o, delta, increase)
    } else {
        Some(es)
    }
}

/// Adjusts both sides of the debt between `u` and `o`.
fn apply_paired(
    members: &Vec<Member>,
    es: Vec<DebtEntry>,
    u: i64,
    o: i64,
    delta: Amount,
    raise_first: bool,
) -> (r: Option<Vec<DebtEntry>>)
    requires
        ledger_inv(members@, es@),
        delta.wf(),
    ensures
        opt_entries(r) == paired_adjustment(members@, es@, u, o, delta, raise_first),
        r matches Some(v) ==> ledger_inv(members@, v@),
        r matches Some(v) ==> forall|x: i64, y: i64|
            !((x == u && y == o) || (x == o && y == u)) ==> #[trigger] balance_between(v@, x, y)
                == balance_between(es@, x, y),
        is_member(members@, u) && is_member(members@, o) && u != o && !raise_first
            && balance_between(es@, u, o) == delta ==> (r matches Some(v) && balance_between(
            v@,
            u,
            o,
        ).is_zero() && balance_between(v@, o, u).is_zero()),
        is_member(members@, u) && is_member(members@, o) && u != o && !raise_first && cents_step(
            balance_between(es@, u, o),
            delta,
            true,
        ) ==> (r matches Some(v) && balance_between(v@, u, o).scale <= 2 && cents_value(
            balance_between(v@, u, o),
        ) == cents_value(balance_between(es@, u, o)) - cents_value(delta)),
        is_member(members@, u) && is_member(members@, o) && u != o && raise_first && cents_step(
            balance_between(es@, u, o),
            delta,
            false,
        ) ==> (r matches Some(v) && balance_between(v@, u, o).scale <= 2 && cents_value(
            balance_between(v@, u, o),
        ) == cents_value(balance_between(es@, u, o)) + cents_value(delta)),
{
    let ghost es0 = es@;
    match adjust_for_member(members, es, u, o, delta, raise_first) {
        None => {
            proof {
                if is_member(members@, u) && !raise_first && balance_between(es0, u, o) == delta {
                    assert(adjusted(es0, u, o, delta, false) is Some);
                }
                if is_member(members@, u) && !raise_first && cents_step(
                    balance_between(es0, u, o),
                    delta,
                    true,
                ) {
                    assert(adjusted(es0, u, o, delta, false) is Some);
                }
                if is_member(members@, u) && raise_first && cents_step(
                    balance_between(es0, u, o),
                    delta,
                    false,
                ) {
                    assert(adjusted(es0, u, o, delta, true) is Some);
                }
            }
            None
        },
        Some(es1) => {
            let ghost g1 = es1@;
            let r = adjust_for_member(members, es1, o, u, delta, !raise_first);
            proof {
                lemma_adjusted_for_member(members@, es0, u, o, delta, raise_first);
                if is_member(members@, u) && is_member(members@, o) && u != o && !raise_first
                    && balance_between(es0, u, o) == delta {
                    assert(balance_between(g1, o, u) == balance_between(es0, o, u));
                    assert(balance_between(es0, o, u) == delta.negated());
                    assert(decimal_sum(delta.negated(), delta) == Some(
                        Amount { mantissa: 0, scale: delta.scale }.negated(),
                    ));
                    assert(adjusted(g1, o, u, delta, true) is Some);
                }
                if is_member(members@, u) && is_member(members@, o) && u != o && raise_first
                    && cents_step(balance_between(es0, u, o), delta, false) {
                    let b = balance_between(es0, u, o);
                    assert(balance_between(g1, o, u) == balance_between(es0, o, u));
                    assert(balance_between(es0, o, u) == b.negated());
                    assert(decimal_sum(b, delta) is Some);
                    assert(decimal_difference(b.negated(), delta) is Some);
                    assert(adjusted(g1, o, u, delta, false) is Some);
                }
                if is_member(members@, u) && is_member(members@, o) && u != o && !raise_first
                    && cents_step(balance_between(es0, u, o), delta, true) {
                    let b = balance_between(es0, u, o);
                    assert(balance_between(g1, o, u) == balance_between(es0, o, u));
                    assert(balance_between(es0, o, u) == b.negated());
                    assert(decimal_difference(b, delta) is Some);
                    assert(decimal_sum(b.negated(), delta) is Some);
                    assert(adjusted(g1, o, u, delta, true) is Some);
                }
                if r is Some {
                    lemma_adjusted_for_member(members@, g1, o, u, delta, !raise_first);
                    assert(u != o ==> balance_between(r->Some_0@, u, o) == balance_between(g1, u, o));
                    lemma_paired_keeps_inv(members@, es0, u, o, delta, raise_first);
                    let g2 = r->Some_0@;
                    assert forall|x: i64| #[trigger] balance_between(g2, x, x).is_zero() by {
                        assert(balance_between(es0, x, x).is_zero());
                        if x == u && u == o && is_member(members@, u) {
                            let v1 = balance_between(g1, u, u);
                            if raise_first {
                                assert(v1 == delta);
                            } else {
                                assert(v1 == delta.negated());
                                assert(v1.negated() == delta) by {
                                    assert(delta.wf());
                                }
                            }
                        }
                    }
                }
            }
            r
        },
    }
}

/// A prefix holds no more occurrences than the whole list.
proof fn lemma_occurrences_prefix(ps: Seq<i64>, p: i64, k: int)
    requires
        0 <= k <= ps.len(),
    ensures
        0 <= occurrences(ps.take(k), p) <= occurrences(ps, p),
    decreases ps.len() - k,
{
    if k < ps.len() {
        lemma_occurrences_prefix(ps, p, k + 1);
        assert(ps.take(k + 1).drop_last() =~= ps.take(k));
        assert(ps.take(k + 1).last() == ps[k]);
        lemma_occurrences_nonneg(ps.take(k), p);
    } else {
        assert(ps.take(k) =~= ps);
        lemma_occurrences_nonneg(ps, p);
    }
}

proof fn lemma_occurrences_nonneg(ps: Seq<i64>, p: i64)
    ensures
        0 <= occurrences(ps, p),
    decreases ps.len(),
{
    if ps.len() > 0 {
        lemma_occurrences_nonneg(ps.drop_last(), p);
    }
}

/// Between no shares and all of them, every count of shares fits too.
proof fn lemma_shares_between(b: Amount, share: Amount, j: int, k: int)
    requires
        0 <= j <= k,
        shares_fit(b, share, k),
    ensures
        fits_mantissa(cents_value(b) + j * cents_value(share)),
{
    let c = cents_value(share);
    assert(0 <= j * c <= k * c || k * c <= j * c <= 0) by (nonlinear_arith)
        requires
            0 <= j <= k,
    ;
}

/// Applies one participant's share of a shared debt.
fn apply_share(
    members: &Vec<Member>,
    es: Vec<DebtEntry>,
    participant: i64,
    creator: i64,
    share: Amount,
) -> (r: Option<Vec<DebtEntry>>)
    requires
        ledger_inv(members@, es@),
        share.wf(),
    ensures
        opt_entries(r) == after_share(members@, es@, participant, creator, share),
        r matches Some(v) ==> ledger_inv(members@, v@),
        r matches Some(v) ==> forall|x: i64, y: i64|
            !((x == participant && y == creator) || (x == creator && y == participant))
                ==> #[trigger] balance_between(v@, x, y) == balance_between(es@, x, y),
        is_member(members@, participant) && is_member(members@, creator) && participant != creator
            && cents_step(balance_between(es@, participant, creator), share, false) ==> (
        r matches Some(v) && balance_between(v@, participant, creator).scale <= 2 && cents_value(
            balance_between(v@, participant, creator),
        ) == cents_value(balance_between(es@, participant, creator)) + cents_value(share)),
{
    if participant == creator {
        Some(es)
    } else {
        apply_paired(members, es, participant, creator, share, true)
    }
}

/// Applies `share` for every participant in turn.
fn apply_shares(
    members: &Vec<Member>,
    es: Vec<DebtEntry>,
    creator: i64,
    share: Amount,
    participants: &Vec<i64>,
) -> (r: Option<Vec<DebtEntry>>)
    requires
        ledger_inv(members@, es@),
        share.wf(),
    ensures
        opt_entries(r) == after_shares(members@, es@, creator, share, participants@),
        r matches Some(v) ==> ledger_inv(members@, v@),
        r matches Some(v) ==> forall|p: i64|
            is_member(members@, p) && is_member(members@, creator) && p != creator && shares_fit(
                balance_between(es@, p, creator),
                share,
                occurrences(participants@, p),
            ) ==> (#[trigger] balance_between(v@, p, creator)).scale <= 2 && cents_value(
                balance_between(v@, p, creator),
            ) == cents_value(balance_between(es@, p, creator)) + occurrences(participants@, p)
                * cents_value(share),
{
    let ghost es0 = es@;
    let mut cur = es;
    let mut i: usize = 0;
    while i < participants.len()
        invariant
            i <= participants@.len(),
            share.wf(),
            es0 == es@,
            after_shares(members@, es0, creator, share, participants@.take(i as int)) == Some(
                cur@,
            ),
            ledger_inv(members@, cur@),
            forall|p: i64|
                is_member(members@, p) && is_member(members@, creator) && p != creator
                    && shares_fit(
                    balance_between(es0, p, creator),
                    share,
                    occurrences(participants@, p),
                ) ==> (#[trigger] balance_between(cur@, p, creator)).scale <= 2 && cents_value(
                    balance_between(cur@, p, creator),
                ) == cents_value(balance_between(es0, p, creator)) + occurrences(
                    participants@.take(i as int),
                    p,
                ) * cents_value(share),
        decreases participants@.len() - i,
    {
        proof {
            assert(participants@.take(i + 1).drop_last() =~= participants@.take(i as int));
            assert(participants@.take(i + 1).last() == participants@[i as int]);
        }
        let q = participants[i];
        let ghost before = cur@;
        proof {
            if is_member(members@, q) && is_member(members@, creator) && q != creator
                && shares_fit(balance_between(es0, q, creator), share, occurrences(participants@, q)) {
                lemma_occurrences_prefix(participants@, q, i + 1);
                lemma_occurrences_prefix(participants@, q, i as int);
                lemma_shares_between(
                    balance_between(es0, q, creator),
                    share,
                    occurrences(participants@.take(i as int), q),
                    occurrences(participants@, q),
                );
                lemma_shares_between(
                    balance_between(es0, q, creator),
                    share,
                    occurrences(participants@.take(i + 1), q),
                    occurrences(participants@, q),
                );
                assert(cents_value(balance_between(es0, q, creator)) + occurrences(
                    participants@.take(i + 1),
                    q,
                ) * cents_value(share) == cents_value(balance_between(es0, q, creator)) + occurrences(
                    participants@.take(i as int),
                    q,
                ) * cents_value(share) + cents_value(share)) by (nonlinear_arith)
                    requires
                        occurrences(participants@.take(i + 1), q) == occurrences(
                            participants@.take(i as int),
                            q,
                        ) + 1,
                ;
            }
        }
        match apply_share(members, cur, q, creator, share) {
            None => {
                proof {
                    assert(participants@.take(i + 1).last() == participants@[i as int]);
                    assert(after_shares(members@, es0, creator, share, participants@.take(i + 1))
                        is None);
                    lemma_after_shares_none(members@, es0, creator, share, participants@, i + 1);
                }
                return None;
            },
            Some(next) => {
                proof {
                    assert forall|p: i64|
                        is_member(members@, p) && is_member(members@, creator) && p != creator
                            && shares_fit(
                            balance_between(es0, p, creator),
                            share,
                            occurrences(participants@, p),
                        ) implies (#[trigger] balance_between(next@, p, creator)).scale <= 2
                        && cents_value(balance_between(next@, p, creator)) == cents_value(
                        balance_between(es0, p, creator),
                    ) + occurrences(participants@.take(i + 1), p) * cents_value(share) by {
                        if p != q {
                            assert(balance_between(next@, p, creator) == balance_between(
                                before,
                                p,
                                creator,
                            ));
                            assert(occurrences(participants@.take(i + 1), p) == occurrences(
                                participants@.take(i as int),
                                p,
                            ));
                        }
                    }
                }
                cur = next;
            },
        }
        i = i + 1;
    }
    proof {
        assert(participants@.take(participants@.len() as int) =~= participants@);
    }
    Some(cur)
}

/// Once a prefix of the participants overflows, the whole does.
proof fn lemma_after_shares_none(
    members: Seq<Member>,
    es: Seq<DebtEntry>,
    creator: i64,
    share: Amount,
    ps: Seq<i64>,
    k: int,
)
    requires
        0 <= k <= ps.len(),
        after_shares(members, es, creator, share, ps.take(k)) is None,
    ensures
        after_shares(members, es, creator, share, ps) is None,
    decreases ps.len() - k,
{
    if k < ps.len() {
        assert(ps.take(k + 1).drop_last() =~= ps.take(k));
        lemma_after_shares_none(members, es, creator, share, ps, k + 1);
    } else {
        assert(ps.take(k) =~= ps);
    }
}

/// Applies a shared debt to the ledger: each participant other than the
/// creator owes the creator `amount / participants.len()`, once for each
/// time they are listed; in cents, a participant's debt to the creator
/// rises by exactly that many shares.
pub fn apply_shared_debt(members: &Vec<Member>, es: Vec<DebtEntry>, debt: &SharedDebtRecord) -> (r:
    Result<Vec<DebtEntry>, BalanceError>)
    requires
        ledger_inv(members@, es@),
    ensures
        ledger_result(r) == after_shared_debt(
            members@,
            es@,
            debt.creator_id,
            debt.amount@,
            debt.participants@,
        ),
        r matches Ok(v) ==> ledger_inv(members@, v@),
        r matches Ok(v) ==> (decimal_from_str(debt.amount@) matches Ok(total) ==> (decimal_quotient(
            total,
            Amount { mantissa: debt.participants@.len() as i128, scale: 0 },
        ) matches Some(share) ==> forall|p: i64|
            is_member(members@, p) && is_member(members@, debt.creator_id) && p != debt.creator_id
                && shares_fit(
                balance_between(es@, p, debt.creator_id),
                share,
                occurrences(debt.participants@, p),
            ) ==> (#[trigger] balance_between(v@, p, debt.creator_id)).scale <= 2 && cents_value(
                balance_between(v@, p, debt.creator_id),
            ) == cents_value(balance_between(es@, p, debt.creator_id)) + occurrences(
                debt.participants@,
                p,
            ) * cents_value(share))),
{
    let total = match parse_decimal(debt.amount.as_str()) {
        Ok(a) => a,
        Err(message) => {
            return Err(BalanceError::InvalidAmount { message });
        },
    };
    if debt.participants.len() == 0 {
        return Ok(es);
    }
    let count = Amount::from_count(debt.participants.len());
    let share = match checked_div(total, count) {
        Some(s) => s,
        None => {
            return Err(BalanceError::Overflow);
        },
    };
    match apply_shares(members, es, debt.creator_id, share, &debt.participants) {
        Some(v) => Ok(v),
        None => Err(BalanceError::Overflow),
    }
}

/// Applies a payment of `amount` from the payer to the recipient. Only the
/// debt between the two changes; a payment of exactly what the payer owes
/// the recipient settles it, leaving nothing owed either way; and, in
/// cents, the payer's debt falls by exactly the amount paid (the
/// recipient's side, being its negation, rises by it).
pub fn apply_transaction(members: &Vec<Member>, es: Vec<DebtEntry>, tx: &TransactionRecord) -> (r:
    Result<Vec<DebtEntry>, BalanceError>)
    requires
        ledger_inv(members@, es@),
    ensures
        ledger_result(r) == after_transaction(
            members@,
            es@,
            tx.payer_id,
            tx.recipient_id,
            tx.amount@,
        ),
        r matches Ok(v) ==> ledger_inv(members@, v@),
        r matches Ok(v) ==> forall|x: i64, y: i64|
            !((x == tx.payer_id && y == tx.recipient_id) || (x == tx.recipient_id && y
                == tx.payer_id)) ==> #[trigger] balance_between(v@, x, y) == balance_between(
                es@,
                x,
                y,
            ),
        is_member(members@, tx.payer_id) && is_member(members@, tx.recipient_id) && tx.payer_id
            != tx.recipient_id && decimal_from_str(tx.amount@) == Ok::<Amount, Seq<char>>(
            balance_between(es@, tx.payer_id, tx.recipient_id),
        ) ==> (r matches Ok(v) && balance_between(v@, tx.payer_id, tx.recipient_id).is_zero()
            && balance_between(v@, tx.recipient_id, tx.payer_id).is_zero()),
        decimal_from_str(tx.amount@) matches Ok(a) ==> (is_member(members@, tx.payer_id)
            && is_member(members@, tx.recipient_id) && tx.payer_id != tx.recipient_id
            && cents_step(balance_between(es@, tx.payer_id, tx.recipient_id), a, true) ==> (
        r matches Ok(v) && balance_between(v@, tx.payer_id, tx.recipient_id).scale <= 2
            && cents_value(balance_between(v@, tx.payer_id, tx.recipient_id)) == cents_value(
            balance_between(es@, tx.payer_id, tx.recipient_id),
        ) - cents_value(a))),
{
    let a = match parse_decimal(tx.amount.as_str()) {
        Ok(a) => a,
        Err(message) => {
            return Err(BalanceError::InvalidAmount { message });
        },
    };
    match apply_paired(members, es, tx.payer_id, tx.recipient_id, a, false) {
        Some(v) => Ok(v),
        None => Err(BalanceError::Overflow),
    }
}

/// Builds the ledger of a group from its members, shared debts and
/// transactions. Between any two members, each side of their debt is
/// recorded exactly when the other is, and each is the negation of the
/// other; no pair is recorded twice.
pub fn build_ledger(
    members: &Vec<Member>,
    debts: &Vec<SharedDebtRecord>,
    txs: &Vec<TransactionRecord>,
) -> (r: Result<Vec<DebtEntry>, BalanceError>)
    ensures
        ledger_result(r) == ledger_of(members@, debts@, txs@),
        r matches Ok(v) ==> ledger_inv(members@, v@),
{
    let mut es: Vec<DebtEntry> = Vec::new();
    let mut i: usize = 0;
    while i < debts.len()
        invariant
            i <= debts@.len(),
            after_shared_debts(members@, Seq::empty(), debts@.take(i as int)) == Ok::<
                Seq<DebtEntry>,
                LedgerFailure,
            >(es@),
            ledger_inv(members@, es@),
        decreases debts@.len() - i,
    {
        proof {
            assert(debts@.take(i + 1).drop_last() =~= debts@.take(i as int));
        }
        match apply_shared_debt(members, es, &debts[i]) {
            Ok(next) => {
                es = next;
            },
            Err(e) => {
                proof {
                    lemma_shared_debts_err(members@, debts@, i + 1);
                }
                return Err(e);
            },
        }
        i = i + 1;
    }
    proof {
        assert(debts@.take(debts@.len() as int) =~= debts@);
    }
    let ghost base = es@;
    let mut j: usize = 0;
    while j < txs.len()
        invariant
            j <= txs@.len(),
            after_shared_debts(members@, Seq::empty(), debts@) == Ok::<
                Seq<DebtEntry>,
                LedgerFailure,
            >(base),
            after_transactions(members@, base, txs@.take(j as int)) == Ok::<
                Seq<DebtEntry>,
                LedgerFailure,
            >(es@),
            ledger_inv(members@, es@),
        decreases txs@.len() - j,
    {
        proof {
            assert(txs@.take(j + 1).drop_last() =~= txs@.take(j as int));
        }
        match apply_transaction(members, es, &txs[j]) {
            Ok(next) => {
                es = next;
            },
            Err(e) => {
                proof {
                    lemma_transactions_err(members@, base, txs@, j + 1);
                }
                return Err(e);
            },
        }
        j = j + 1;
    }
    proof {
        assert(txs@.take(txs@.len() as int) =~= txs@);
    }
    Ok(es)
}

/// Once a prefix of the shared debts fails, the whole fails the same way.
proof fn lemma_shared_debts_err(members: Seq<Member>, debts: Seq<SharedDebtRecord>, k: int)
    requires
        0 <= k <= debts.len(),
        after_shared_debts(members, Seq::empty(), debts.take(k)) is Err,
    ensures
        after_shared_debts(members, Seq::empty(), debts) == after_shared_debts(
            members,
            Seq::empty(),
            debts.take(k),
        ),
    decreases debts.len() - k,
{
    if k < debts.len() {
        assert(debts.take(k + 1).drop_last() =~= debts.take(k));
        lemma_shared_debts_err(members, debts, k + 1);
    } else {
        assert(debts.take(k) =~= debts);
    }
}

/// Once a prefix of the transactions fails, the whole fails the same way.
proof fn lemma_transactions_err(
    members: Seq<Member>,
    es: Seq<DebtEntry>,
    txs: Seq<TransactionRecord>,
    k: int,
)
    requires
        0 <= k <= txs.len(),
        after_transactions(members, es, txs.take(k)) is Err,
    ensures
        after_transactions(members, es, txs) == after_transactions(members, es, txs.take(k)),
    decreases txs.len() - k,
{
    if k < txs.len() {
        assert(txs.take(k + 1).drop_last() =~= txs.take(k));
        lemma_transactions_err(members, es, txs, k + 1);
    } else {
        assert(txs.take(k) =~= txs);
    }
}

} // verus!
