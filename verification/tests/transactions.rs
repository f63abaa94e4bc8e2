use rustify_app::money::{to_cents_string, Amount};
use rustify_app::transactions::{
    check_group_membership, check_transaction_owner, check_transaction_parties,
    normalize_transaction_amount, transaction_amount_verdict, OwnerAction, TransactionError,
};

#[test]
fn amounts_are_stored_in_cents() {
    assert_eq!(normalize_transaction_amount("12.345").unwrap(), "12.34");
    assert_eq!(normalize_transaction_amount("12.355").unwrap(), "12.36");
    assert_eq!(normalize_transaction_amount("7").unwrap(), "7");
    assert_eq!(normalize_transaction_amount("0.5").unwrap(), "0.5");
    assert_eq!(
        normalize_transaction_amount("abc").unwrap_err(),
        TransactionError::InvalidAmountFormat
    );
    assert_eq!(normalize_transaction_amount(" 5").unwrap_err(), TransactionError::InvalidAmountFormat);
    assert_eq!(normalize_transaction_amount("0").unwrap_err(), TransactionError::AmountNotPositive);
    assert_eq!(normalize_transaction_amount("-3").unwrap_err(), TransactionError::AmountNotPositive);
    assert_eq!(
        transaction_amount_verdict(Ok(Amount { mantissa: 12345, scale: 3 })).unwrap(),
        "12.34"
    );
}

#[test]
fn membership_and_parties() {
    assert_eq!(check_group_membership(0).unwrap_err(), TransactionError::NotGroupMember);
    assert!(check_group_membership(1).is_ok());
    assert_eq!(
        check_transaction_parties(1, 2, 0).unwrap_err(),
        TransactionError::RecipientNotMember
    );
    assert_eq!(check_transaction_parties(1, 1, 1).unwrap_err(), TransactionError::SelfTransaction);
    assert!(check_transaction_parties(1, 2, 1).is_ok());
}

#[test]
fn only_the_payer_may_change() {
    assert_eq!(
        check_transaction_owner(None, 1, OwnerAction::Edit).unwrap_err(),
        TransactionError::NotFound
    );
    assert_eq!(
        check_transaction_owner(Some(2), 1, OwnerAction::Edit).unwrap_err(),
        TransactionError::NotOwnerEdit
    );
    assert_eq!(
        check_transaction_owner(Some(2), 1, OwnerAction::Delete).unwrap_err(),
        TransactionError::NotOwnerDelete
    );
    assert!(check_transaction_owner(Some(1), 1, OwnerAction::Delete).is_ok());
}

#[test]
fn messages() {
    assert_eq!(TransactionError::SelfTransaction.message(), "Cannot create transaction with yourself");
    assert_eq!(TransactionError::NotOwnerDelete.message(), "You can only delete your own transactions");
    assert_eq!(TransactionError::NotGroupMember.message(), "You are not a member of this group");
}

#[test]
fn cents_text_rounds_half_to_even() {
    assert_eq!(to_cents_string(Amount { mantissa: -1235, scale: 3 }), "-1.24");
    assert_eq!(to_cents_string(Amount { mantissa: -1225, scale: 3 }), "-1.22");
    assert_eq!(to_cents_string(Amount { mantissa: -5, scale: 3 }), "0.00");
    assert_eq!(to_cents_string(Amount { mantissa: 5, scale: 4 }), "0.00");
    assert_eq!(to_cents_string(Amount { mantissa: 1, scale: 0 }), "1");
    assert_eq!(to_cents_string(Amount { mantissa: 7, scale: 1 }), "0.7");
    assert_eq!(to_cents_string(Amount { mantissa: 1000, scale: 2 }), "10.00");
}
