//! The rules a direct payment between two group members must follow before
//! it is stored, changed or removed.
use vstd::prelude::*;

use crate::money::{cents_text, parse_decimal, parse_result_view, to_cents_string, Amount};
use crate::text::push_str;

verus! {

/// Why a transaction request was refused.
#[derive(Clone, Copy, Debug, PartialEq, Eq, Structural)]
pub enum TransactionError {
    InvalidAmountFormat,
    AmountNotPositive,
    NotGroupMember,
    RecipientNotMember,
    SelfTransaction,
    NotFound,
    NotOwnerEdit,
    NotOwnerDelete,
}

/// The message shown to the user for `e`.
pub open spec fn transaction_error_message(e: TransactionError) -> Seq<char> {
    match e {
        TransactionError::InvalidAmountFormat => "Invalid amount format"@,
        TransactionError::AmountNotPositive => "Amount must be greater than 0"@,
        TransactionError::NotGroupMember => "You are not a member of this group"@,
        TransactionError::RecipientNotMember => "Recipient is not a member of this group"@,
        TransactionError::SelfTransaction => "Cannot create transaction with yourself"@,
        TransactionError::NotFound => "Transaction not found"@,
        TransactionError::NotOwnerEdit => "You can only edit your own transactions"@,
        TransactionError::NotOwnerDelete => "You can only delete your own transactions"@,
    }
}

impl TransactionError {
    /// The message shown to the user.
    pub fn message(&self) -> (r: String)
        ensures
            r@ == transaction_error_message(*self),
    {
        let mut out = String::new();
        let text = match self {
            TransactionError::InvalidAmountFormat => "Invalid amount format",
            TransactionError::AmountNotPositive => "Amount must be greater than 0",
            TransactionError::NotGroupMember => "You are not a member of this group",
            TransactionError::RecipientNotMember => "Recipient is not a member of this group",
            TransactionError::SelfTransaction => "Cannot create transaction with yourself",
            TransactionError::NotFound => "Transaction not found",
            TransactionError::NotOwnerEdit => "You can only edit your own transactions",
            TransactionError::NotOwnerDelete => "You can only delete your own transactions",
        };
        push_str(&mut out, text);
        proof {
            assert(out@ =~= transaction_error_message(*self));
        }
        out
    }
}

/// What a parsed amount becomes: refused unless above zero, and otherwise
/// stored rounded to cents.
pub open spec fn stored_amount(parsed: Result<Amount, Seq<char>>) -> Result<
    Seq<char>,
    TransactionError,
> {
    match parsed {
        Err(_) => Err(TransactionError::InvalidAmountFormat),
        Ok(a) => if a.mantissa <= 0 {
            Err(TransactionError::AmountNotPositive)
        } else {
            Ok(cents_text(a))
        },
    }
}

/// The view of a stored-amount result.
pub open spec fn stored_view(r: Result<String, TransactionError>) -> Result<
    Seq<char>,
    TransactionError,
> {
    match r {
        Ok(s) => Ok(s@),
        Err(e) => Err(e),
    }
}

/// Applies the amount rule to the outcome of parsing.
pub fn transaction_amount_verdict(parsed: Result<Amount, String>) -> (r: Result<
    String,
    TransactionError,
>)
    requires
        parsed matches Ok(a) ==> a.wf(),
    ensures
        stored_view(r) == stored_amount(parse_result_view(parsed)),
{
    match parsed {
        Err(_) => Err(TransactionError::InvalidAmountFormat),
        Ok(a) => {
            if a.mantissa <= 0 {
                Err(TransactionError::AmountNotPositive)
            } else {
                Ok(to_cents_string(a))
            }
        },
    }
}

/// Parses the amount of a transaction as typed and gives the text to store:
/// the amount rounded to cents; refused unless it is a decimal number above
/// zero.
pub fn normalize_transaction_amount(amount: &str) -> (r: Result<String, TransactionError>)
    ensures
        stored_view(r) == stored_amount(crate::money::decimal_from_str(amount@)),
{
    let parsed = parse_decimal(amount);
    transaction_amount_verdict(parsed)
}

/// The requesting user must belong to the group: `member_count` is the
/// number of memberships found for them in it.
pub fn check_group_membership(member_count: i64) -> (r: Result<(), TransactionError>)
    ensures
        member_count == 0 ==> r == Err::<(), TransactionError>(TransactionError::NotGroupMember),
        member_count != 0 ==> r is Ok,
{
    if member_count == 0 {
        Err(TransactionError::NotGroupMember)
    } else {
        Ok(())
    }
}

/// The recipient must belong to the group (`recipient_member_count` is the
/// number of memberships found for them in it) and must not be the payer.
pub fn check_transaction_parties(user_id: i64, recipient_id: i64, recipient_member_count: i64) -> (r:
    Result<(), TransactionError>)
    ensures
        recipient_member_count == 0 ==> r == Err::<(), TransactionError>(
            TransactionError::RecipientNotMember,
        ),
        recipient_member_count != 0 && user_id == recipient_id ==> r == Err::<
            (),
            TransactionError,
        >(TransactionError::SelfTransaction),
        recipient_member_count != 0 && user_id != recipient_id ==> r is Ok,
{
    if recipient_member_count == 0 {
        Err(TransactionError::RecipientNotMember)
    } else if user_id == recipient_id {
        Err(TransactionError::SelfTransaction)
    } else {
        Ok(())
    }
}

/// What a user asks to do with an existing transaction.
#[derive(Clone, Copy, Debug, PartialEq, Eq, Structural)]
pub enum OwnerAction {
    Edit,
    Delete,
}

/// Only the payer may change or remove a transaction: `existing_payer` is
/// the payer of the transaction found, if any.
pub fn check_transaction_owner(existing_payer: Option<i64>, user_id: i64, action: OwnerAction) -> (r:
    Result<(), TransactionError>)
    ensures
        existing_payer is None ==> r == Err::<(), TransactionError>(TransactionError::NotFound),
        existing_payer matches Some(p) && p != user_id ==> r == Err::<(), TransactionError>(
            if action == OwnerAction::Edit {
                TransactionError::NotOwnerEdit
            } else {
                TransactionError::NotOwnerDelete
            },
        ),
        existing_payer matches Some(p) && p == user_id ==> r is Ok,
{
    match existing_payer {
        None => Err(TransactionError::NotFound),
        Some(p) => {
            if p != user_id {
                match action {
                    OwnerAction::Edit => Err(TransactionError::NotOwnerEdit),
                    OwnerAction::Delete => Err(TransactionError::NotOwnerDelete),
                }
            } else {
                Ok(())
            }
        },
    }
}

} // verus!
