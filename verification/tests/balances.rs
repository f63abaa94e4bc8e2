use rustify_app::balances::{compute_user_balances, NetType, RelationshipType, UserBalance};
use rustify_app::ledger::{
    apply_shared_debt, apply_transaction, build_ledger, BalanceError, DebtEntry, Member,
    SharedDebtRecord, TransactionRecord,
};
use rustify_app::money::Amount;

fn member(id: i64, name: &str) -> Member {
    Member { id, username: name.to_string() }
}

fn debt(creator_id: i64, amount: &str, participants: &[i64]) -> SharedDebtRecord {
    SharedDebtRecord { creator_id, amount: amount.to_string(), participants: participants.to_vec() }
}

fn tx(payer_id: i64, recipient_id: i64, amount: &str) -> TransactionRecord {
    TransactionRecord { payer_id, recipient_id, amount: amount.to_string() }
}

fn trio() -> Vec<Member> {
    vec![member(1, "alice"), member(2, "bob"), member(3, "carol")]
}

fn find<'a>(bs: &'a [UserBalance], id: i64) -> &'a UserBalance {
    bs.iter().find(|b| b.user_id == id).unwrap()
}

#[test]
fn shared_debt_is_split_equally_and_owed_to_creator() {
    let members = trio();
    let bs = compute_user_balances(&members, &vec![debt(1, "30.00", &[1, 2, 3])], &vec![]).unwrap();
    assert_eq!(bs.len(), 3);
    let alice = find(&bs, 1);
    assert_eq!(alice.username, "alice");
    assert_eq!(alice.relationships.len(), 2);
    assert_eq!(alice.relationships[0].other_user_id, 2);
    assert_eq!(alice.relationships[0].other_username, "bob");
    assert_eq!(alice.relationships[0].relationship_type, RelationshipType::Owed);
    assert_eq!(alice.relationships[0].amount, "10.00");
    assert_eq!(alice.total_owed, "20.00");
    assert_eq!(alice.total_owing, "0");
    assert_eq!(alice.net_amount, "20.00");
    assert_eq!(alice.net_type, NetType::Positive);
    let bob = find(&bs, 2);
    assert_eq!(bob.relationships.len(), 1);
    assert_eq!(bob.relationships[0].other_user_id, 1);
    assert_eq!(bob.relationships[0].relationship_type, RelationshipType::Owes);
    assert_eq!(bob.relationships[0].amount, "10.00");
    assert_eq!(bob.total_owing, "10.00");
    assert_eq!(bob.net_type, NetType::Negative);
    assert_eq!(bob.net_amount, "10.00");
}

#[test]
fn payment_reduces_debt() {
    let members = trio();
    let bs = compute_user_balances(
        &members,
        &vec![debt(1, "30.00", &[1, 2, 3])],
        &vec![tx(2, 1, "4")],
    )
    .unwrap();
    let bob = find(&bs, 2);
    assert_eq!(bob.relationships[0].amount, "6.00");
    assert_eq!(bob.relationships[0].relationship_type, RelationshipType::Owes);
    let alice = find(&bs, 1);
    assert_eq!(alice.relationships[0].other_user_id, 2);
    assert_eq!(alice.relationships[0].amount, "6.00");
    assert_eq!(alice.relationships[0].relationship_type, RelationshipType::Owed);
}

#[test]
fn settled_debts_disappear_and_overpayment_flips() {
    let members = trio();
    let settled = compute_user_balances(
        &members,
        &vec![debt(1, "20", &[1, 2])],
        &vec![tx(2, 1, "10")],
    )
    .unwrap();
    assert!(find(&settled, 1).relationships.is_empty());
    assert!(find(&settled, 2).relationships.is_empty());
    assert_eq!(find(&settled, 2).net_type, NetType::Neutral);
    assert_eq!(find(&settled, 2).net_amount, "0");

    let flipped = compute_user_balances(&members, &vec![], &vec![tx(2, 1, "5.5")]).unwrap();
    let bob = find(&flipped, 2);
    assert_eq!(bob.relationships[0].relationship_type, RelationshipType::Owed);
    assert_eq!(bob.relationships[0].amount, "5.5");
    let alice = find(&flipped, 1);
    assert_eq!(alice.relationships[0].relationship_type, RelationshipType::Owes);
    assert_eq!(alice.relationships[0].amount, "5.5");
    assert_eq!(alice.net_type, NetType::Negative);
}

#[test]
fn rounding_to_cents() {
    let members = trio();
    let bs = compute_user_balances(&members, &vec![debt(1, "10", &[1, 2, 3])], &vec![]).unwrap();
    let bob = find(&bs, 2);
    assert_eq!(bob.relationships[0].amount, "3.33");
    let alice = find(&bs, 1);
    assert_eq!(alice.total_owed, "6.67");
}

#[test]
fn balances_mirror_each_other() {
    let members = trio();
    let bs = compute_user_balances(
        &members,
        &vec![debt(1, "30", &[1, 2, 3]), debt(3, "12.40", &[2, 3]), debt(2, "7", &[1])],
        &vec![tx(2, 1, "4"), tx(3, 2, "1.2"), tx(1, 3, "100")],
    )
    .unwrap();
    for a in bs.iter() {
        for r in a.relationships.iter() {
            let other = find(&bs, r.other_user_id);
            let back = other.relationships.iter().find(|x| x.other_user_id == a.user_id).unwrap();
            assert_eq!(back.amount, r.amount);
            assert_ne!(back.relationship_type, r.relationship_type);
        }
    }
}

#[test]
fn non_members_and_empty_debts_are_ignored() {
    let members = trio();
    let es = build_ledger(
        &members,
        &vec![debt(1, "9", &[]), debt(9, "10", &[2, 9])],
        &vec![tx(9, 3, "2")],
    )
    .unwrap();
    // bob owes the non-member creator 5; carol's debt to the payer is -2
    assert_eq!(es.len(), 2);
    assert_eq!(es[0].debtor, 2);
    assert_eq!(es[0].creditor, 9);
    assert_eq!(es[1], DebtEntry { debtor: 3, creditor: 9, amount: Amount { mantissa: 2, scale: 0 } });
    let bs = compute_user_balances(
        &members,
        &vec![debt(9, "10", &[2, 9])],
        &vec![],
    )
    .unwrap();
    let bob = find(&bs, 2);
    assert_eq!(bob.relationships[0].other_username, "");
}

#[test]
fn invalid_amounts_are_reported() {
    let members = trio();
    let e = build_ledger(&members, &vec![debt(1, "ten", &[2])], &vec![]).unwrap_err();
    assert!(matches!(e, BalanceError::InvalidAmount { .. }));
    let e = build_ledger(&members, &vec![], &vec![tx(1, 2, "x")]).unwrap_err();
    assert!(matches!(e, BalanceError::InvalidAmount { .. }));
    // the amount is parsed before the participants are looked at
    let e = build_ledger(&members, &vec![debt(1, "??", &[])], &vec![]).unwrap_err();
    assert!(matches!(e, BalanceError::InvalidAmount { .. }));
}

#[test]
fn overflow_is_reported() {
    let members = trio();
    let big = "79228162514264337593543950335";
    let e = build_ledger(&members, &vec![debt(1, big, &[2]), debt(1, big, &[2])], &vec![])
        .unwrap_err();
    assert_eq!(e, BalanceError::Overflow);
}

#[test]
fn step_functions_match_build() {
    let members = trio();
    let es = apply_shared_debt(&members, Vec::new(), &debt(1, "8", &[1, 2])).unwrap();
    let es = apply_transaction(&members, es, &tx(2, 1, "1")).unwrap();
    let built = build_ledger(&members, &vec![debt(1, "8", &[1, 2])], &vec![tx(2, 1, "1")]).unwrap();
    assert_eq!(es, built);
    assert_eq!(es[0].amount, Amount { mantissa: 3, scale: 0 });
    assert_eq!(es[1].amount, Amount { mantissa: -3, scale: 0 });
}

#[test]
fn paying_exactly_what_is_owed_clears_the_pair() {
    let members = trio();
    let es = apply_shared_debt(&members, Vec::new(), &debt(1, "9.30", &[1, 2, 3])).unwrap();
    let es = apply_transaction(&members, es, &tx(2, 1, "3.10")).unwrap();
    let bob_alice = es.iter().find(|e| e.debtor == 2 && e.creditor == 1).unwrap();
    let alice_bob = es.iter().find(|e| e.debtor == 1 && e.creditor == 2).unwrap();
    assert_eq!(bob_alice.amount.mantissa, 0);
    assert_eq!(alice_bob.amount.mantissa, 0);
    // carol's debt is untouched
    let carol_alice = es.iter().find(|e| e.debtor == 3 && e.creditor == 1).unwrap();
    assert!(carol_alice.amount.mantissa > 0);
    let bs = compute_user_balances(
        &members,
        &vec![debt(1, "9.30", &[1, 2, 3])],
        &vec![tx(2, 1, "3.10")],
    )
    .unwrap();
    assert!(find(&bs, 2).relationships.is_empty());
    assert_eq!(find(&bs, 1).relationships.len(), 1);
    assert_eq!(find(&bs, 1).relationships[0].other_user_id, 3);
}

#[test]
fn one_balance_per_member_in_order() {
    let members = trio();
    let bs = compute_user_balances(&members, &vec![], &vec![]).unwrap();
    let ids: Vec<i64> = bs.iter().map(|b| b.user_id).collect();
    assert_eq!(ids, vec![1, 2, 3]);
    assert_eq!(bs[2].username, "carol");
    assert_eq!(bs[0].net_type, NetType::Neutral);
    assert_eq!(bs[0].net_amount, "0");
}

#[test]
fn paying_oneself_lists_nothing() {
    let members = trio();
    let bs = compute_user_balances(&members, &vec![], &vec![tx(2, 2, "5.25")]).unwrap();
    assert!(find(&bs, 2).relationships.is_empty());
    assert_eq!(find(&bs, 2).net_type, NetType::Neutral);
    let es = build_ledger(&members, &vec![], &vec![tx(2, 2, "5.25"), tx(2, 2, "1")]).unwrap();
    assert!(es.iter().all(|e| e.amount.mantissa == 0));
}

#[test]
fn each_other_user_is_listed_once() {
    let members = trio();
    let bs = compute_user_balances(
        &members,
        &vec![debt(1, "9", &[1, 2, 3]), debt(1, "3", &[2])],
        &vec![tx(2, 1, "1"), tx(3, 1, "1")],
    )
    .unwrap();
    let alice = find(&bs, 1);
    let mut ids: Vec<i64> = alice.relationships.iter().map(|r| r.other_user_id).collect();
    ids.sort();
    ids.dedup();
    assert_eq!(ids.len(), alice.relationships.len());
    assert!(bs.iter().all(|b| b.relationships.iter().all(|r| r.other_user_id != b.user_id)));
}

#[test]
fn totals_are_the_sums_of_the_listed_amounts() {
    let members = trio();
    let bs = compute_user_balances(
        &members,
        &vec![debt(1, "10.50", &[1, 2]), debt(3, "4", &[2, 3])],
        &vec![tx(2, 3, "0.25")],
    )
    .unwrap();
    let bob = find(&bs, 2);
    // bob owes alice 5.25 and carol 2 - 0.25 = 1.75
    assert_eq!(bob.total_owing, "7.00");
    assert_eq!(bob.total_owed, "0");
    assert_eq!(bob.net_amount, "7.00");
    assert_eq!(bob.net_type, NetType::Negative);
    let carol = find(&bs, 3);
    assert_eq!(carol.total_owed, "1.75");
    assert_eq!(carol.net_type, NetType::Positive);
}

#[test]
fn a_payment_lowers_the_payers_debt_by_exactly_its_amount() {
    let members = trio();
    let es = apply_shared_debt(&members, Vec::new(), &debt(1, "12.60", &[1, 2, 3])).unwrap();
    let before = es.iter().find(|e| e.debtor == 2 && e.creditor == 1).unwrap().amount;
    let es = apply_transaction(&members, es, &tx(2, 1, "1.05")).unwrap();
    let after = es.iter().find(|e| e.debtor == 2 && e.creditor == 1).unwrap().amount;
    let cents = |a: Amount| a.mantissa * 10i128.pow(2 - a.scale);
    assert_eq!(cents(after), cents(before) - 105);
    let back = es.iter().find(|e| e.debtor == 1 && e.creditor == 2).unwrap().amount;
    assert_eq!(cents(back), -cents(after));
}

#[test]
fn a_shared_debt_adds_one_share_per_listing() {
    let members = trio();
    let es = apply_shared_debt(&members, Vec::new(), &debt(1, "9.00", &[1, 2, 2, 3])).unwrap();
    let cents = |a: Amount| a.mantissa * 10i128.pow(2 - a.scale);
    let bob = es.iter().find(|e| e.debtor == 2 && e.creditor == 1).unwrap().amount;
    let carol = es.iter().find(|e| e.debtor == 3 && e.creditor == 1).unwrap().amount;
    assert_eq!(cents(bob), 450);
    assert_eq!(cents(carol), 225);
}
