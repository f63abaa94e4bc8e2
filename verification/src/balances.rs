//! The balance overview of a group: for each member, whom they owe and who
//! owes them, with totals and the net position, all as amounts rounded to
//! cents.
use vstd::prelude::*;

use crate::ledger::{
    amounts_wf, antisymmetric, balance_between, build_ledger, entry_index, failure_of, is_member,
    ledger_inv, ledger_of, lemma_entry_index, pairs_unique, BalanceError, DebtEntry,
    LedgerFailure, Member, SharedDebtRecord, TransactionRecord,
};
use crate::money::{
    cents_text, cents_value, checked_add, checked_sub, decimal_difference, decimal_sum,
    aligned_fits, aligned_mantissa, common_scale, decimal_text, lemma_cents_difference,
    lemma_cents_sum, pow10, spec_abs, spec_zero,
    to_cents_string, Amount, MAX_MANTISSA,
};

verus! {

/// Which way a debt goes, seen from the member whose balance it is.
#[derive(Clone, Copy, Debug, PartialEq, Eq, Structural)]
pub enum RelationshipType {
    /// The member owes money to the other user.
    Owes,
    /// The other user owes money to the member.
    Owed,
}

/// A member's overall position.
#[derive(Clone, Copy, Debug, PartialEq, Eq, Structural)]
pub enum NetType {
    /// Owed more than they owe.
    Positive,
    /// Owing more than they are owed.
    Negative,
    /// Balanced.
    Neutral,
}

/// A debt between the member and one other user.
#[derive(Clone, Debug)]
pub struct DebtRelationship {
    pub other_user_id: i64,
    pub other_username: String,
    pub amount: String,
    pub relationship_type: RelationshipType,
}

/// A member's balance.
#[derive(Clone, Debug)]
pub struct UserBalance {
    pub user_id: i64,
    pub username: String,
    pub relationships: Vec<DebtRelationship>,
    /// What others owe this member in total.
    pub total_owed: String,
    /// What this member owes others in total.
    pub total_owing: String,
    /// The absolute value of the net position.
    pub net_amount: String,
    pub net_type: NetType,
}

/// A `DebtRelationship` with its texts taken by their views.
pub struct RelationshipView {
    pub other_user_id: i64,
    pub other_username: Seq<char>,
    pub amount: Seq<char>,
    pub relationship_type: RelationshipType,
}

/// A `UserBalance` with its texts taken by their views.
pub struct BalanceView {
    pub user_id: i64,
    pub username: Seq<char>,
    pub relationships: Seq<RelationshipView>,
    pub total_owed: Seq<char>,
    pub total_owing: Seq<char>,
    pub net_amount: Seq<char>,
    pub net_type: NetType,
}

impl View for DebtRelationship {
    type V = RelationshipView;

    open spec fn view(&self) -> RelationshipView {
        RelationshipView {
            other_user_id: self.other_user_id,
            other_username: self.other_username@,
            amount: self.amount@,
            relationship_type: self.relationship_type,
        }
    }
}

/// The views of a list of relationships.
pub open spec fn relationships_view(rs: Seq<DebtRelationship>) -> Seq<RelationshipView> {
    rs.map_values(|r: DebtRelationship| r@)
}

impl View for UserBalance {
    type V = BalanceView;

    open spec fn view(&self) -> BalanceView {
        BalanceView {
            user_id: self.user_id,
            username: self.username@,
            relationships: relationships_view(self.relationships@),
            total_owed: self.total_owed@,
            total_owing: self.total_owing@,
            net_amount: self.net_amount@,
            net_type: self.net_type,
        }
    }
}

/// The views of a list of balances.
pub open spec fn balances_view(bs: Seq<UserBalance>) -> Seq<BalanceView> {
    bs.map_values(|b: UserBalance| b@)
}

/// Index of the first member with id `o`, or -1.
pub open spec fn member_index(members: Seq<Member>, o: i64) -> int
    decreases members.len(),
{
    if members.len() == 0 {
        -1
    } else {
        let k = member_index(members.drop_last(), o);
        if k >= 0 {
            k
        } else if members.last().id == o {
            members.len() - 1
        } else {
            -1
        }
    }
}

/// The username of the first member with id `o`; empty if there is none.
pub open spec fn username_of(members: Seq<Member>, o: i64) -> Seq<char> {
    let k = member_index(members, o);
    if k >= 0 {
        members[k].username@
    } else {
        Seq::empty()
    }
}

/// The relationships and totals gathered from a member's entries so far.
pub struct Tally {
    pub relationships: Seq<RelationshipView>,
    pub owed: Amount,
    pub owing: Amount,
}

/// Goes through the entries in order and, for each non-zero debt of `u`,
/// records the relationship and adds its size to what `u` owes (positive
/// amounts) or is owed (negative amounts). `None` on overflow.
pub open spec fn tally(members: Seq<Member>, es: Seq<DebtEntry>, u: i64) -> Option<Tally>
    decreases es.len(),
{
    if es.len() == 0 {
        Some(Tally { relationships: Seq::empty(), owed: spec_zero(), owing: spec_zero() })
    } else {
        match tally(members, es.drop_last(), u) {
            None => None,
            Some(t) => {
                let e = es.last();
                if e.debtor != u || e.amount.is_zero() {
                    Some(t)
                } else if e.amount.is_positive() {
                    match decimal_sum(t.owing, e.amount) {
                        None => None,
                        Some(owing) => Some(
                            Tally {
                                relationships: t.relationships.push(
                                    RelationshipView {
                                        other_user_id: e.creditor,
                                        other_username: username_of(members, e.creditor),
                                        amount: cents_text(e.amount),
                                        relationship_type: RelationshipType::Owes,
                                    },
                                ),
                                owed: t.owed,
                                owing,
                            },
                        ),
                    }
                } else {
                    match decimal_sum(t.owed, spec_abs(e.amount)) {
                        None => None,
                        Some(owed) => Some(
                            Tally {
                                relationships: t.relationships.push(
                                    RelationshipView {
                                        other_user_id: e.creditor,
                                        other_username: username_of(members, e.creditor),
                                        amount: cents_text(spec_abs(e.amount)),
                                        relationship_type: RelationshipType::Owed,
                                    },
                                ),
                                owed,
                                owing: t.owing,
                            },
                        ),
                    }
                }
            },
        }
    }
}

/// The net type of a net amount (what the member is owed minus what they
/// owe).
pub open spec fn net_type_of(net: Amount) -> NetType {
    if net.mantissa > 0 {
        NetType::Positive
    } else if net.mantissa < 0 {
        NetType::Negative
    } else {
        NetType::Neutral
    }
}

/// The balance of member `m`. `None` on overflow.
pub open spec fn balance_of(members: Seq<Member>, es: Seq<DebtEntry>, m: Member) -> Option<
    BalanceView,
> {
    match tally(members, es, m.id) {
        None => None,
        Some(t) => match decimal_difference(t.owed, t.owing) {
            None => None,
            Some(net) => Some(
                BalanceView {
                    user_id: m.id,
                    username: m.username@,
                    relationships: t.relationships,
                    total_owed: cents_text(t.owed),
                    total_owing: cents_text(t.owing),
                    net_amount: cents_text(spec_abs(net)),
                    net_type: net_type_of(net),
                },
            ),
        },
    }
}

/// The balances of the members `ms`, in order. `None` on overflow.
pub open spec fn balances_for(members: Seq<Member>, es: Seq<DebtEntry>, ms: Seq<Member>) -> Option<
    Seq<BalanceView>,
>
    decreases ms.len(),
{
    if ms.len() == 0 {
        Some(Seq::empty())
    } else {
        match balances_for(members, es, ms.drop_last()) {
            None => None,
            Some(bs) => match balance_of(members, es, ms.last()) {
                None => None,
                Some(b) => Some(bs.push(b)),
            },
        }
    }
}

/// `rels` lists a relationship of kind `kind` with user `o` for the
/// amount `text`.
pub open spec fn has_relationship(
    rels: Seq<RelationshipView>,
    o: i64,
    kind: RelationshipType,
    text: Seq<char>,
) -> bool {
    exists|j: int|
        0 <= j < rels.len() && (#[trigger] rels[j]).other_user_id == o && rels[j].relationship_type
            == kind && rels[j].amount == text
}

/// Every two members' balances agree: one lists that it owes the other an
/// amount exactly when the other lists that it is owed that amount by the
/// one.
pub open spec fn balances_agree(bs: Seq<BalanceView>) -> bool {
    forall|i: int, j: int, text: Seq<char>|
        #![trigger has_relationship(bs[i].relationships, bs[j].user_id, RelationshipType::Owes, text)]
        #![trigger has_relationship(bs[j].relationships, bs[i].user_id, RelationshipType::Owed, text)]
        0 <= i < bs.len() && 0 <= j < bs.len() && bs[i].user_id != bs[j].user_id ==> (
        has_relationship(bs[i].relationships, bs[j].user_id, RelationshipType::Owes, text)
            <==> has_relationship(bs[j].relationships, bs[i].user_id, RelationshipType::Owed, text))
}

/// The relationship kind a non-zero debt amount shows as.
pub open spec fn kind_of(a: Amount) -> RelationshipType {
    if a.is_positive() {
        RelationshipType::Owes
    } else {
        RelationshipType::Owed
    }
}

/// What a member's tally lists: a relationship with `o` exactly when the
/// ledger records a non-zero debt of the member to `o`, of the matching
/// kind, for its size rounded to cents.
proof fn lemma_tally_lists(members: Seq<Member>, es: Seq<DebtEntry>, u: i64, t: Tally)
    requires
        pairs_unique(es),
        tally(members, es, u) == Some(t),
    ensures
        forall|o: i64, kind: RelationshipType, text: Seq<char>|
            #[trigger] has_relationship(t.relationships, o, kind, text) <==> (entry_index(es, u, o)
                >= 0 && !balance_between(es, u, o).is_zero() && kind == kind_of(
                balance_between(es, u, o),
            ) && text == cents_text(spec_abs(balance_between(es, u, o)))),
    decreases es.len(),
{
    if es.len() == 0 {
        assert forall|o: i64, kind: RelationshipType, text: Seq<char>|
            !#[trigger] has_relationship(t.relationships, o, kind, text) by {}
    } else {
        let es1 = es.drop_last();
        let e = es.last();
        let t1 = tally(members, es1, u).unwrap();
        assert(pairs_unique(es1)) by {
            assert forall|i: int, j: int| 0 <= i < j < es1.len() implies !((#[trigger] es1[i]).debtor
                == (#[trigger] es1[j]).debtor && es1[i].creditor == es1[j].creditor) by {
                assert(es1[i] == es[i] && es1[j] == es[j]);
            }
        }
        lemma_tally_lists(members, es1, u, t1);
        assert(es1.push(e) =~= es);
        assert forall|o: i64, kind: RelationshipType, text: Seq<char>|
            #[trigger] has_relationship(t.relationships, o, kind, text) <==> (entry_index(es, u, o)
                >= 0 && !balance_between(es, u, o).is_zero() && kind == kind_of(
                balance_between(es, u, o),
            ) && text == cents_text(spec_abs(balance_between(es, u, o)))) by {
            lemma_entry_index(es1, u, o);
            lemma_entry_index(es, u, o);
            if entry_index(es1, u, o) >= 0 {
                assert(es[entry_index(es1, u, o)] == es1[entry_index(es1, u, o)]);
            }
            if e.debtor == u && e.creditor == o {
                if entry_index(es1, u, o) >= 0 {
                    let k = entry_index(es1, u, o);
                    assert(es[k].debtor == es[es.len() - 1].debtor && es[k].creditor
                        == es[es.len() - 1].creditor);
                }
                assert(entry_index(es, u, o) == es.len() - 1);
                assert(!has_relationship(t1.relationships, o, kind, text));
            }
            if !(e.debtor != u || e.amount.is_zero()) {
                let rels = t.relationships;
                assert(rels.len() == t1.relationships.len() + 1);
                assert forall|j: int| 0 <= j < t1.relationships.len() implies rels[j]
                    == t1.relationships[j] by {}
                if has_relationship(t1.relationships, o, kind, text) {
                    let j = choose|j: int|
                        0 <= j < t1.relationships.len() && (
                        #[trigger] t1.relationships[j]).other_user_id == o
                            && t1.relationships[j].relationship_type == kind
                            && t1.relationships[j].amount == text;
                    assert(rels[j] == t1.relationships[j]);
                }
                if has_relationship(rels, o, kind, text) {
                    let j = choose|j: int|
                        0 <= j < rels.len() && (#[trigger] rels[j]).other_user_id == o
                            && rels[j].relationship_type == kind && rels[j].amount == text;
                    if j < t1.relationships.len() {
                        assert(t1.relationships[j] == rels[j]);
                    }
                }
                if e.debtor == u && e.creditor == o && kind == kind_of(e.amount) && text
                    == cents_text(spec_abs(e.amount)) {
                    assert(rels[rels.len() - 1].other_user_id == o);
                }
            }
        }
    }
}

/// What member `u` owes by the ledger, in hundredths: the sum of its
/// positive entries.
pub open spec fn owing_cents(es: Seq<DebtEntry>, u: i64) -> int
    decreases es.len(),
{
    if es.len() == 0 {
        0
    } else {
        owing_cents(es.drop_last(), u) + (if es.last().debtor == u && es.last().amount.mantissa
            > 0 {
            cents_value(es.last().amount)
        } else {
            0
        })
    }
}

/// What member `u` is owed by the ledger, in hundredths: the sum of the
/// sizes of its negative entries.
pub open spec fn owed_cents(es: Seq<DebtEntry>, u: i64) -> int
    decreases es.len(),
{
    if es.len() == 0 {
        0
    } else {
        owed_cents(es.drop_last(), u) + (if es.last().debtor == u && es.last().amount.mantissa
            < 0 {
            cents_value(spec_abs(es.last().amount))
        } else {
            0
        })
    }
}

/// Member `u`'s entries are amounts of at most two decimal places, and
/// what they owe and are owed in total fits in a decimal.
pub open spec fn entries_in_cents(es: Seq<DebtEntry>, u: i64) -> bool {
    &&& forall|i: int| 0 <= i < es.len() && (#[trigger] es[i]).debtor == u ==> es[i].amount.scale <= 2
    &&& owing_cents(es, u) <= MAX_MANTISSA
    &&& owed_cents(es, u) <= MAX_MANTISSA
}

/// The net type of a net position in hundredths.
pub open spec fn net_type_of_cents(net: int) -> NetType {
    if net > 0 {
        NetType::Positive
    } else if net < 0 {
        NetType::Negative
    } else {
        NetType::Neutral
    }
}

/// `b`'s totals are written from `owed`, `owing` and `net`, which are worth
/// exactly what the ledger's entries of member `u` add up to.
pub open spec fn totals_witness(
    es: Seq<DebtEntry>,
    u: i64,
    b: BalanceView,
    owed: Amount,
    owing: Amount,
    net: Amount,
) -> bool {
    &&& owed.scale <= 2 && owing.scale <= 2 && net.scale <= 2
    &&& cents_value(owed) == owed_cents(es, u)
    &&& cents_value(owing) == owing_cents(es, u)
    &&& cents_value(net) == owed_cents(es, u) - owing_cents(es, u)
    &&& b.total_owed == decimal_text(owed)
    &&& b.total_owing == decimal_text(owing)
    &&& b.net_amount == decimal_text(spec_abs(net))
    &&& b.net_type == net_type_of_cents(owed_cents(es, u) - owing_cents(es, u))
}

/// The totals of balance `b` are the sums of member `u`'s debts: what they
/// owe, what they are owed and the difference, each written out in full,
/// and the net type follows the difference.
pub open spec fn totals_are_sums(es: Seq<DebtEntry>, u: i64, b: BalanceView) -> bool {
    exists|owed: Amount, owing: Amount, net: Amount| #[trigger] totals_witness(es, u, b, owed, owing, net)
}

/// Partial sums of a member's debts never exceed the full sums, and none
/// is negative.
proof fn lemma_cents_prefix(es: Seq<DebtEntry>, u: i64, j: int)
    requires
        0 <= j <= es.len(),
        amounts_wf(es),
    ensures
        0 <= owing_cents(es.take(j), u) <= owing_cents(es, u),
        0 <= owed_cents(es.take(j), u) <= owed_cents(es, u),
    decreases es.len() - j,
{
    if j < es.len() {
        lemma_cents_prefix(es, u, j + 1);
        assert(es.take(j + 1).drop_last() =~= es.take(j));
        assert(es.take(j + 1).last() == es[j]);
        let a = es[j].amount;
        assert(a.wf());
        assert forall|i: int| 0 <= i < es.take(j).len() implies (#[trigger] es.take(j)[i]).amount.wf() by {
            assert(es.take(j)[i] == es[i]);
        }
        lemma_cents_total_nonneg(es.take(j), u);
        lemma_cents_nonneg(a);
        lemma_cents_nonneg(spec_abs(a));
    } else {
        assert(es.take(j) =~= es);
        lemma_cents_total_nonneg(es, u);
    }
}

proof fn lemma_cents_total_nonneg(es: Seq<DebtEntry>, u: i64)
    requires
        amounts_wf(es),
    ensures
        0 <= owing_cents(es, u),
        0 <= owed_cents(es, u),
    decreases es.len(),
{
    if es.len() > 0 {
        assert forall|i: int| 0 <= i < es.drop_last().len() implies (
        #[trigger] es.drop_last()[i]).amount.wf() by {
            assert(es.drop_last()[i] == es[i]);
        }
        lemma_cents_total_nonneg(es.drop_last(), u);
        assert(es.last() == es[es.len() - 1]);
        lemma_cents_nonneg(es.last().amount);
        lemma_cents_nonneg(spec_abs(es.last().amount));
    }
}

/// Bringing an amount to a larger scale keeps the sign of its mantissa.
proof fn lemma_aligned_sign(a: Amount, s: u32)
    requires
        a.scale <= s,
    ensures
        aligned_mantissa(a, s) > 0 <==> a.mantissa > 0,
        aligned_mantissa(a, s) < 0 <==> a.mantissa < 0,
        aligned_mantissa(a, s) == 0 <==> a.mantissa == 0,
{
    let p = pow10((s - a.scale) as nat);
    lemma_pow10_positive((s - a.scale) as nat);
    assert(a.mantissa > 0 ==> a.mantissa * p > 0) by (nonlinear_arith)
        requires
            p >= 1,
    ;
    assert(a.mantissa < 0 ==> a.mantissa * p < 0) by (nonlinear_arith)
        requires
            p >= 1,
    ;
    assert(a.mantissa == 0 ==> a.mantissa * p == 0) by (nonlinear_arith);
}

proof fn lemma_pow10_positive(n: nat)
    ensures
        pow10(n) >= 1,
    decreases n,
{
    if n > 0 {
        lemma_pow10_positive((n - 1) as nat);
    }
}

/// A non-negative amount has a non-negative value in hundredths, and a
/// value's sign is its mantissa's.
proof fn lemma_cents_nonneg(a: Amount)
    ensures
        a.mantissa >= 0 ==> cents_value(a) >= 0,
        a.mantissa > 0 ==> cents_value(a) > 0,
        a.mantissa < 0 ==> cents_value(a) < 0,
        a.mantissa == 0 ==> cents_value(a) == 0,
{
    let p = pow10((2 - a.scale) as nat);
    lemma_pow10_positive((2 - a.scale) as nat);
    assert(a.mantissa >= 0 ==> a.mantissa * p >= 0) by (nonlinear_arith)
        requires
            p >= 1,
    ;
    assert(a.mantissa > 0 ==> a.mantissa * p > 0) by (nonlinear_arith)
        requires
            p >= 1,
    ;
    assert(a.mantissa < 0 ==> a.mantissa * p < 0) by (nonlinear_arith)
        requires
            p >= 1,
    ;
    assert(a.mantissa == 0 ==> a.mantissa * p == 0) by (nonlinear_arith);
}

/// A member's balance lists a relationship with user `o` exactly when the
/// ledger records a non-zero debt of the member to `o`: as owing when the
/// member owes `o` (a positive amount), as owed when `o` owes the member,
/// for the size of the debt rounded to cents.
pub proof fn law_listed_relationships(
    members: Seq<Member>,
    es: Seq<DebtEntry>,
    m: Member,
    b: BalanceView,
    o: i64,
    kind: RelationshipType,
    text: Seq<char>,
)
    requires
        pairs_unique(es),
        balance_of(members, es, m) == Some(b),
    ensures
        has_relationship(b.relationships, o, kind, text) <==> ({
            let d = balance_between(es, m.id, o);
            &&& entry_index(es, m.id, o) >= 0
            &&& d.mantissa != 0
            &&& (kind == RelationshipType::Owes) == (d.mantissa > 0)
            &&& text == cents_text(spec_abs(d))
        }),
{
    let t = tally(members, es, m.id).unwrap();
    lemma_tally_lists(members, es, m.id, t);
}

/// A member's net type is the sign of their net position, the difference
/// between the totals of what they are owed and what they owe: positive
/// exactly when it is above zero, negative exactly when below, neutral
/// exactly when zero, whatever the amounts' decimal places; and the net
/// amount shown is the size of that same difference, the totals shown
/// those same totals.
pub proof fn law_net_type_is_sign_of_net(
    members: Seq<Member>,
    es: Seq<DebtEntry>,
    m: Member,
    b: BalanceView,
)
    requires
        balance_of(members, es, m) == Some(b),
    ensures
        ({
            let t = tally(members, es, m.id).unwrap();
            let net = decimal_difference(t.owed, t.owing).unwrap();
            &&& decimal_difference(t.owed, t.owing) is Some
            &&& (b.net_type == NetType::Positive) == (net.mantissa > 0)
            &&& (b.net_type == NetType::Negative) == (net.mantissa < 0)
            &&& (b.net_type == NetType::Neutral) == (net.mantissa == 0)
            &&& b.net_amount == cents_text(spec_abs(net))
            &&& b.total_owed == cents_text(t.owed)
            &&& b.total_owing == cents_text(t.owing)
        }),
{
}

/// Every relationship a tally lists is with a creditor of one of the
/// member's entries, and no user is listed twice.
proof fn lemma_tally_distinct(members: Seq<Member>, es: Seq<DebtEntry>, u: i64, t: Tally)
    requires
        pairs_unique(es),
        tally(members, es, u) == Some(t),
    ensures
        forall|j: int|
            0 <= j < t.relationships.len() ==> exists|k: int|
                0 <= k < es.len() && es[k].debtor == u && es[k].creditor == (
                #[trigger] t.relationships[j]).other_user_id,
        forall|i: int, j: int|
            0 <= i < j < t.relationships.len() ==> (#[trigger] t.relationships[i]).other_user_id
                != (#[trigger] t.relationships[j]).other_user_id,
    decreases es.len(),
{
    if es.len() > 0 {
        let es1 = es.drop_last();
        let e = es.last();
        let t1 = tally(members, es1, u).unwrap();
        assert(pairs_unique(es1)) by {
            assert forall|i: int, j: int| 0 <= i < j < es1.len() implies !((#[trigger] es1[i]).debtor
                == (#[trigger] es1[j]).debtor && es1[i].creditor == es1[j].creditor) by {
                assert(es1[i] == es[i] && es1[j] == es[j]);
            }
        }
        lemma_tally_distinct(members, es1, u, t1);
        let rels = t.relationships;
        let n1 = t1.relationships.len();
        assert forall|j: int| 0 <= j < n1 implies exists|k: int|
            0 <= k < es.len() && es[k].debtor == u && es[k].creditor == (
            #[trigger] t1.relationships[j]).other_user_id by {
            let k = choose|k: int|
                0 <= k < es1.len() && es1[k].debtor == u && es1[k].creditor
                    == t1.relationships[j].other_user_id;
            assert(es[k] == es1[k]);
        }
        if !(e.debtor != u || e.amount.is_zero()) {
            assert(rels.len() == n1 + 1);
            assert forall|j: int| 0 <= j < n1 implies rels[j] == t1.relationships[j] by {}
            assert(rels[n1 as int].other_user_id == e.creditor);
            assert forall|j: int| 0 <= j < n1 implies (#[trigger] t1.relationships[j]).other_user_id
                != e.creditor by {
                let k = choose|k: int|
                    0 <= k < es1.len() && es1[k].debtor == u && es1[k].creditor
                        == t1.relationships[j].other_user_id;
                assert(es[k] == es1[k]);
                assert(k < es.len() - 1);
                assert(!(es[k].debtor == es[es.len() - 1].debtor && es[k].creditor
                    == es[es.len() - 1].creditor));
            }
            assert forall|j: int| 0 <= j < rels.len() implies exists|k: int|
                0 <= k < es.len() && es[k].debtor == u && es[k].creditor == (
                #[trigger] rels[j]).other_user_id by {
                if j == n1 {
                    assert(es[es.len() - 1].creditor == rels[j].other_user_id);
                } else {
                    assert(rels[j] == t1.relationships[j]);
                }
            }
            assert forall|i: int, j: int| 0 <= i < j < rels.len() implies (
            #[trigger] rels[i]).other_user_id != (#[trigger] rels[j]).other_user_id by {
                assert(rels[i] == t1.relationships[i]);
                if j < n1 {
                    assert(rels[j] == t1.relationships[j]);
                }
            }
        }
    }
}

/// A member's balance lists each other user at most once.
pub proof fn law_listed_once(
    members: Seq<Member>,
    es: Seq<DebtEntry>,
    m: Member,
    b: BalanceView,
)
    requires
        pairs_unique(es),
        balance_of(members, es, m) == Some(b),
    ensures
        forall|i: int, j: int|
            0 <= i < j < b.relationships.len() ==> (#[trigger] b.relationships[i]).other_user_id
                != (#[trigger] b.relationships[j]).other_user_id,
{
    let t = tally(members, es, m.id).unwrap();
    lemma_tally_distinct(members, es, m.id, t);
}

/// A debt that stands at zero is not listed: a member's balance shows no
/// relationship with a user whom, by the ledger, they owe nothing and who
/// owes them nothing.
pub proof fn law_settled_debt_is_not_listed(
    members: Seq<Member>,
    es: Seq<DebtEntry>,
    m: Member,
    o: i64,
    b: BalanceView,
    kind: RelationshipType,
    text: Seq<char>,
)
    requires
        pairs_unique(es),
        balance_between(es, m.id, o).is_zero(),
        balance_of(members, es, m) == Some(b),
    ensures
        !has_relationship(b.relationships, o, kind, text),
{
    let t = tally(members, es, m.id).unwrap();
    lemma_tally_lists(members, es, m.id, t);
}

/// Two members' balances, computed from a ledger that is antisymmetric
/// between members, agree on every debt between them: one lists that it
/// owes the other an amount exactly when the other lists that it is owed
/// that amount by the one.
pub proof fn law_balances_agree(
    members: Seq<Member>,
    es: Seq<DebtEntry>,
    mu: Member,
    mo: Member,
    bu: BalanceView,
    bo: BalanceView,
    text: Seq<char>,
)
    requires
        ledger_inv(members, es),
        is_member(members, mu.id),
        is_member(members, mo.id),
        mu.id != mo.id,
        balance_of(members, es, mu) == Some(bu),
        balance_of(members, es, mo) == Some(bo),
    ensures
        has_relationship(bu.relationships, mo.id, RelationshipType::Owes, text)
            <==> has_relationship(bo.relationships, mu.id, RelationshipType::Owed, text),
{
    let u = mu.id;
    let o = mo.id;
    let tu = tally(members, es, u).unwrap();
    let to = tally(members, es, o).unwrap();
    lemma_tally_lists(members, es, u, tu);
    lemma_tally_lists(members, es, o, to);
    let a = balance_between(es, u, o);
    assert(balance_between(es, o, u) == a.negated());
    assert(has_relationship(tu.relationships, o, RelationshipType::Owes, text) <==> (entry_index(
        es,
        u,
        o,
    ) >= 0 && !a.is_zero() && RelationshipType::Owes == kind_of(a) && text == cents_text(
        spec_abs(a),
    )));
    assert(has_relationship(to.relationships, u, RelationshipType::Owed, text) <==> (entry_index(
        es,
        o,
        u,
    ) >= 0 && !a.negated().is_zero() && RelationshipType::Owed == kind_of(a.negated()) && text
        == cents_text(spec_abs(a.negated()))));
    if entry_index(es, u, o) >= 0 {
        lemma_entry_index(es, u, o);
        assert(a.wf());
        if a.is_positive() {
            assert(spec_abs(a.negated()) == a);
        }
    }
}

/// The list of balances holds, at each place, the balance of the member
/// at the same place.
proof fn lemma_balances_for(
    members: Seq<Member>,
    es: Seq<DebtEntry>,
    ms: Seq<Member>,
    bs: Seq<BalanceView>,
)
    requires
        balances_for(members, es, ms) == Some(bs),
    ensures
        bs.len() == ms.len(),
        forall|i: int| 0 <= i < ms.len() ==> balance_of(members, es, ms[i]) == Some(#[trigger] bs[i]),
    decreases ms.len(),
{
    if ms.len() > 0 {
        let bs1 = balances_for(members, es, ms.drop_last()).unwrap();
        lemma_balances_for(members, es, ms.drop_last(), bs1);
        assert forall|i: int| 0 <= i < ms.len() implies balance_of(members, es, ms[i]) == Some(
            #[trigger] bs[i],
        ) by {
            if i < ms.len() - 1 {
                assert(ms[i] == ms.drop_last()[i]);
                assert(bs[i] == bs1[i]);
            }
        }
    }
}

/// The username of the first member with id `o`, or an empty text.
fn username_for(members: &Vec<Member>, o: i64) -> (r: String)
    ensures
        r@ == username_of(members@, o),
{
    let mut i: usize = 0;
    while i < members.len()
        invariant
            i <= members@.len(),
            member_index(members@.take(i as int), o) == -1,
        decreases members@.len() - i,
    {
        proof {
            assert(members@.take(i + 1).drop_last() =~= members@.take(i as int));
        }
        if members[i].id == o {
            proof {
                lemma_member_index_prefix(members@, o, i + 1);
            }
            return members[i].username.clone();
        }
        i = i + 1;
    }
    proof {
        assert(members@.take(members@.len() as int) =~= members@);
    }
    String::new()
}

/// A member found in a prefix is found at the same place in the whole.
proof fn lemma_member_index_prefix(members: Seq<Member>, o: i64, k: int)
    requires
        0 <= k <= members.len(),
        member_index(members.take(k), o) >= 0,
    ensures
        member_index(members, o) == member_index(members.take(k), o),
        members[member_index(members, o)] == members.take(k)[member_index(members, o)],
    decreases members.len() - k,
{
    lemma_member_index_bounds(members.take(k), o);
    if k < members.len() {
        assert(members.take(k + 1).drop_last() =~= members.take(k));
        lemma_member_index_prefix(members, o, k + 1);
    } else {
        assert(members.take(k) =~= members);
    }
}

proof fn lemma_member_index_bounds(members: Seq<Member>, o: i64)
    ensures
        -1 <= member_index(members, o) < members.len(),
    decreases members.len(),
{
    if members.len() > 0 {
        lemma_member_index_bounds(members.drop_last(), o);
    }
}

/// The view of a tally in progress.
pub open spec fn tally_of(rels: Seq<DebtRelationship>, owed: Amount, owing: Amount) -> Tally {
    Tally { relationships: relationships_view(rels), owed, owing }
}

/// Gathers member `u`'s relationships and totals from the ledger.
fn tally_entries(members: &Vec<Member>, es: &Vec<DebtEntry>, u: i64) -> (r: Option<
    (Vec<DebtRelationship>, Amount, Amount),
>)
    requires
        amounts_wf(es@),
    ensures
        match r {
            None => tally(members@, es@, u) is None,
            Some((rels, owed, owing)) => tally(members@, es@, u) == Some(
                tally_of(rels@, owed, owing),
            ) && owed.wf() && owing.wf(),
        },
        entries_in_cents(es@, u) ==> (r matches Some((rels, owed, owing)) && owed.scale <= 2
            && owing.scale <= 2 && cents_value(owing) == owing_cents(es@, u) && cents_value(owed)
            == owed_cents(es@, u)),
{
    let mut rels: Vec<DebtRelationship> = Vec::new();
    let mut owed = Amount::zero();
    let mut owing = Amount::zero();
    let mut j: usize = 0;
    proof {
        assert(relationships_view(rels@) =~= Seq::<RelationshipView>::empty());
    }
    while j < es.len()
        invariant
            j <= es@.len(),
            amounts_wf(es@),
            owed.wf(),
            owing.wf(),
            tally(members@, es@.take(j as int), u) == Some(tally_of(rels@, owed, owing)),
            entries_in_cents(es@, u) ==> (owing.scale <= 2 && owed.scale <= 2 && cents_value(
                owing,
            ) == owing_cents(es@.take(j as int), u) && cents_value(owed) == owed_cents(
                es@.take(j as int),
                u,
            )),
        decreases es@.len() - j,
    {
        proof {
            assert(es@.take(j + 1).drop_last() =~= es@.take(j as int));
            assert(es@.take(j + 1).last() == es@[j as int]);
            if entries_in_cents(es@, u) {
                lemma_cents_prefix(es@, u, j + 1);
                lemma_cents_prefix(es@, u, j as int);
                lemma_cents_nonneg(es@[j as int].amount);
                lemma_cents_nonneg(spec_abs(es@[j as int].amount));
            }
        }
        let e = es[j];
        assert(e.amount.wf());
        if e.debtor != u || e.amount.mantissa == 0 {
        } else if e.amount.mantissa > 0 {
            let added = checked_add(owing, e.amount);
            proof {
                if entries_in_cents(es@, u) {
                    lemma_cents_sum(owing, e.amount, added);
                }
            }
            match added {
                None => {
                    proof {
                        lemma_tally_none(members@, es@, u, j + 1);
                    }
                    return None;
                },
                Some(sum) => {
                    let rel = DebtRelationship {
                        other_user_id: e.creditor,
                        other_username: username_for(members, e.creditor),
                        amount: to_cents_string(e.amount),
                        relationship_type: RelationshipType::Owes,
                    };
                    let ghost before = rels@;
                    rels.push(rel);
                    proof {
                        assert(relationships_view(rels@) =~= relationships_view(before).push(
                            rel@,
                        ));
                    }
                    owing = sum;
                },
            }
        } else {
            let a = e.amount.abs();
            let added = checked_add(owed, a);
            proof {
                if entries_in_cents(es@, u) {
                    lemma_cents_sum(owed, a, added);
                }
            }
            match added {
                None => {
                    proof {
                        lemma_tally_none(members@, es@, u, j + 1);
                    }
                    return None;
                },
                Some(sum) => {
                    let rel = DebtRelationship {
                        other_user_id: e.creditor,
                        other_username: username_for(members, e.creditor),
                        amount: to_cents_string(a),
                        relationship_type: RelationshipType::Owed,
                    };
                    let ghost before = rels@;
                    rels.push(rel);
                    proof {
                        assert(relationships_view(rels@) =~= relationships_view(before).push(
                            rel@,
                        ));
                    }
                    owed = sum;
                },
            }
        }
        j = j + 1;
    }
    proof {
        assert(es@.take(es@.len() as int) =~= es@);
    }
    Some((rels, owed, owing))
}

/// Once a prefix of the entries overflows, the whole does.
proof fn lemma_tally_none(members: Seq<Member>, es: Seq<DebtEntry>, u: i64, k: int)
    requires
        0 <= k <= es.len(),
        tally(members, es.take(k), u) is None,
    ensures
        tally(members, es, u) is None,
    decreases es.len() - k,
{
    if k < es.len() {
        assert(es.take(k + 1).drop_last() =~= es.take(k));
        lemma_tally_none(members, es, u, k + 1);
    } else {
        assert(es.take(k) =~= es);
    }
}

/// The balance of member `m` given the group's ledger; `None` on overflow.
fn balance_for(members: &Vec<Member>, es: &Vec<DebtEntry>, m: &Member) -> (r: Option<UserBalance>)
    requires
        amounts_wf(es@),
    ensures
        match r {
            None => balance_of(members@, es@, *m) is None,
            Some(b) => balance_of(members@, es@, *m) == Some(b@),
        },
        entries_in_cents(es@, m.id) ==> (r matches Some(b) && totals_are_sums(es@, m.id, b@)),
        tally(members@, es@, m.id) matches Some(t) ==> (aligned_fits(t.owed, t.owing, -1) ==> (
        r matches Some(b) && (b.net_type == NetType::Positive) == (aligned_mantissa(
            t.owed,
            common_scale(t.owed, t.owing),
        ) > aligned_mantissa(t.owing, common_scale(t.owed, t.owing))) && (b.net_type
            == NetType::Negative) == (aligned_mantissa(t.owed, common_scale(t.owed, t.owing))
            < aligned_mantissa(t.owing, common_scale(t.owed, t.owing))))),
{
    let (rels, owed, owing) = match tally_entries(members, es, m.id) {
        None => {
            return None;
        },
        Some(t) => t,
    };
    let diff = checked_sub(owed, owing);
    proof {
        if entries_in_cents(es@, m.id) {
            lemma_cents_total_nonneg(es@, m.id);
            lemma_cents_difference(owed, owing, diff);
        }
    }
    proof {
        if aligned_fits(owed, owing, -1) {
            let sc = common_scale(owed, owing);
            lemma_aligned_sign(owed, sc);
            lemma_aligned_sign(owing, sc);
            assert(owing.negated().mantissa == -owing.mantissa);
        }
    }
    let net = match diff {
        None => {
            return None;
        },
        Some(n) => n,
    };
    proof {
        lemma_cents_nonneg(net);
        let sc = common_scale(owed, owing);
        lemma_aligned_sign(owed, sc);
        lemma_aligned_sign(owing, sc);
    }
    let net_type = if net.mantissa > 0 {
        NetType::Positive
    } else if net.mantissa < 0 {
        NetType::Negative
    } else {
        NetType::Neutral
    };
    let b = UserBalance {
        user_id: m.id,
        username: m.username.clone(),
        relationships: rels,
        total_owed: to_cents_string(owed),
        total_owing: to_cents_string(owing),
        net_amount: to_cents_string(net.abs()),
        net_type,
    };
    proof {
        if entries_in_cents(es@, m.id) {
            assert(totals_witness(es@, m.id, b@, owed, owing, net));
        }
    }
    Some(b)
}

/// The balances of all members, in member order, given the group's ledger.
pub fn summarize_balances(members: &Vec<Member>, es: &Vec<DebtEntry>) -> (r: Result<
    Vec<UserBalance>,
    BalanceError,
>)
    requires
        amounts_wf(es@),
    ensures
        match balances_for(members@, es@, members@) {
            None => r matches Err(BalanceError::Overflow),
            Some(bs) => r matches Ok(v) && balances_view(v@) == bs,
        },
        r matches Ok(v) ==> v@.len() == members@.len() && forall|i: int|
            0 <= i < v@.len() && entries_in_cents(es@, members@[i].id) ==> totals_are_sums(
                es@,
                members@[i].id,
                (#[trigger] v@[i])@,
            ),
{
    let mut out: Vec<UserBalance> = Vec::new();
    let mut i: usize = 0;
    proof {
        assert(balances_view(out@) =~= Seq::<BalanceView>::empty());
    }
    while i < members.len()
        invariant
            i <= members@.len(),
            amounts_wf(es@),
            balances_for(members@, es@, members@.take(i as int)) == Some(balances_view(out@)),
            out@.len() == i,
            forall|k: int|
                0 <= k < i && entries_in_cents(es@, members@[k].id) ==> totals_are_sums(
                    es@,
                    members@[k].id,
                    (#[trigger] out@[k])@,
                ),
        decreases members@.len() - i,
    {
        proof {
            assert(members@.take(i + 1).drop_last() =~= members@.take(i as int));
            assert(members@.take(i + 1).last() == members@[i as int]);
        }
        match balance_for(members, es, &members[i]) {
            None => {
                proof {
                    lemma_balances_none(members@, es@, members@, i + 1);
                }
                return Err(BalanceError::Overflow);
            },
            Some(b) => {
                let ghost before = out@;
                out.push(b);
                proof {
                    assert(balances_view(out@) =~= balances_view(before).push(b@));
                    assert forall|k: int|
                        0 <= k < i + 1 && entries_in_cents(es@, members@[k].id) implies totals_are_sums(
                        es@,
                        members@[k].id,
                        (#[trigger] out@[k])@,
                    ) by {
                        if k < i {
                            assert(out@[k] == before[k]);
                        }
                    }
                }
            },
        }
        i = i + 1;
    }
    proof {
        assert(members@.take(members@.len() as int) =~= members@);
    }
    Ok(out)
}

/// Once a prefix of the members overflows, the whole does.
proof fn lemma_balances_none(members: Seq<Member>, es: Seq<DebtEntry>, ms: Seq<Member>, k: int)
    requires
        0 <= k <= ms.len(),
        balances_for(members, es, ms.take(k)) is None,
    ensures
        balances_for(members, es, ms) is None,
    decreases ms.len() - k,
{
    if k < ms.len() {
        assert(ms.take(k + 1).drop_last() =~= ms.take(k));
        lemma_balances_none(members, es, ms, k + 1);
    } else {
        assert(ms.take(k) =~= ms);
    }
}

/// The balances of a group's members, computed from its shared debts and
/// transactions.
pub open spec fn user_balances(
    members: Seq<Member>,
    debts: Seq<SharedDebtRecord>,
    txs: Seq<TransactionRecord>,
) -> Result<Seq<BalanceView>, LedgerFailure> {
    match ledger_of(members, debts, txs) {
        Err(f) => Err(f),
        Ok(es) => match balances_for(members, es, members) {
            None => Err(LedgerFailure::Overflow),
            Some(bs) => Ok(bs),
        },
    }
}

/// Computes every member's balance from the group's shared debts and
/// transactions: one balance per member, in the members' order; no member
/// is listed in their own balance, nor any other user twice, and the two
/// sides of every debt agree. When a member's debts are amounts of at most
/// two decimal places whose totals fit, their totals are exactly the sums
/// of what they owe and are owed, and the net type follows the difference.
pub fn compute_user_balances(
    members: &Vec<Member>,
    debts: &Vec<SharedDebtRecord>,
    txs: &Vec<TransactionRecord>,
) -> (r: Result<Vec<UserBalance>, BalanceError>)
    ensures
        match r {
            Ok(v) => user_balances(members@, debts@, txs@) == Ok::<
                Seq<BalanceView>,
                LedgerFailure,
            >(balances_view(v@)),
            Err(e) => user_balances(members@, debts@, txs@) == Err::<
                Seq<BalanceView>,
                LedgerFailure,
            >(failure_of(e)),
        },
        r matches Ok(v) ==> balances_agree(balances_view(v@)),
        r matches Ok(v) ==> v@.len() == members@.len() && forall|i: int|
            0 <= i < v@.len() ==> (#[trigger] v@[i]).user_id == members@[i].id
                && v@[i].username@ == members@[i].username@,
        r matches Ok(v) ==> (ledger_of(members@, debts@, txs@) matches Ok(es) && forall|i: int|
            0 <= i < v@.len() && entries_in_cents(es, members@[i].id) ==> totals_are_sums(
                es,
                members@[i].id,
                (#[trigger] v@[i])@,
            )),
        r matches Ok(v) ==> forall|i: int, j: int, k: int|
            0 <= i < v@.len() && 0 <= j < k < v@[i].relationships@.len() ==> (
            #[trigger] v@[i].relationships@[j]).other_user_id != (
            #[trigger] v@[i].relationships@[k]).other_user_id,
        r matches Ok(v) ==> forall|i: int, kind: RelationshipType, text: Seq<char>|
            0 <= i < v@.len() ==> !#[trigger] has_relationship(
                v@[i]@.relationships,
                v@[i].user_id,
                kind,
                text,
            ),
{
    let es = build_ledger(members, debts, txs)?;
    let r = summarize_balances(members, &es);
    proof {
        if r is Ok {
            let bs = balances_view(r->Ok_0@);
            lemma_balances_for(members@, es@, members@, bs);
            assert forall|i: int| 0 <= i < r->Ok_0@.len() implies (#[trigger] r->Ok_0@[i]).user_id
                == members@[i].id && r->Ok_0@[i].username@ == members@[i].username@ by {
                assert(bs[i] == r->Ok_0@[i]@);
                assert(balance_of(members@, es@, members@[i]) == Some(bs[i]));
            }
            assert forall|i: int, kind: RelationshipType, text: Seq<char>|
                0 <= i < r->Ok_0@.len() implies !#[trigger] has_relationship(
                r->Ok_0@[i]@.relationships,
                r->Ok_0@[i].user_id,
                kind,
                text,
            ) by {
                let m = members@[i];
                assert(bs[i] == r->Ok_0@[i]@);
                assert(balance_of(members@, es@, m) == Some(bs[i]));
                assert(balance_of(members@, es@, m).unwrap().user_id == m.id);
                assert(balance_between(es@, m.id, m.id).is_zero());
                law_settled_debt_is_not_listed(members@, es@, m, m.id, bs[i], kind, text);
            }
            let v = r->Ok_0@;
            assert forall|i: int, j: int, k: int|
                0 <= i < v.len() && 0 <= j < k < v[i].relationships@.len() implies (
                #[trigger] v[i].relationships@[j]).other_user_id != (
                #[trigger] v[i].relationships@[k]).other_user_id by {
                let m = members@[i];
                assert(bs[i] == v[i]@);
                assert(balance_of(members@, es@, m) == Some(bs[i]));
                law_listed_once(members@, es@, m, bs[i]);
                assert(bs[i].relationships[j] == v[i].relationships@[j]@);
                assert(bs[i].relationships[k] == v[i].relationships@[k]@);
            }
            assert forall|i: int, j: int, text: Seq<char>|
                0 <= i < bs.len() && 0 <= j < bs.len() && bs[i].user_id
                    != bs[j].user_id implies (has_relationship(
                bs[i].relationships,
                bs[j].user_id,
                RelationshipType::Owes,
                text,
            ) <==> has_relationship(
                bs[j].relationships,
                bs[i].user_id,
                RelationshipType::Owed,
                text,
            )) by {
                let mu = members@[i];
                let mo = members@[j];
                assert(balance_of(members@, es@, mu) == Some(bs[i]));
                assert(balance_of(members@, es@, mo) == Some(bs[j]));
                assert(bs[i].user_id == mu.id) by {
                    assert(balance_of(members@, es@, mu).unwrap().user_id == mu.id);
                }
                assert(bs[j].user_id == mo.id) by {
                    assert(balance_of(members@, es@, mo).unwrap().user_id == mo.id);
                }
                assert(is_member(members@, mu.id)) by {
                    assert(members@[i].id == mu.id);
                }
                assert(is_member(members@, mo.id)) by {
                    assert(members@[j].id == mo.id);
                }
                law_balances_agree(members@, es@, mu, mo, bs[i], bs[j], text);
            }
        }
    }
    r
}

} // verus!
