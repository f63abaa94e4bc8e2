//! Validation of the text fields users submit: names, descriptions,
//! usernames, passwords and e-mail addresses.
use vstd::prelude::*;

use crate::email::{email_accepted, is_valid_email, lemma_accepted_chars};
use crate::money::{
    amount_exceeds_hundredths, decimal_from_str, exceeds_hundredths, parse_decimal, Amount,
};
use crate::text::{
    ascii_lower_char, ascii_lowercase, char_is_alphabetic, char_is_alphanumeric, chars_of, decimal,
    is_alphanumeric_char, is_ascii_text, is_letter, law_sanitize_idempotent, lemma_sanitized_plain, spec_is_ascii_upper,
    lowercased, push_decimal, push_str, sanitize_string, sanitized, to_lowercase, utf8_len,
    utf8_len_upto,
};

verus! {

/// Why a submitted value was refused.
#[derive(Clone, Debug, PartialEq, Eq)]
pub enum ValidationError {
    /// The name is empty or shorter than `min_len` bytes.
    NameTooShort { field: String, min_len: usize },
    /// The name is longer than `max_len` bytes.
    NameTooLong { field: String, max_len: usize },
    /// The description is longer than `max_len` bytes.
    DescriptionTooLong { max_len: usize },
    UsernameRequired,
    UsernameTooShort,
    UsernameTooLong,
    UsernameInvalidChars,
    PasswordRequired,
    PasswordTooShort,
    PasswordTooLong,
    PasswordNoLetter,
    EmailRequired,
    EmailInvalid,
    AmountRequired,
    AmountInvalidFormat,
    AmountNotPositive,
    AmountTooManyDecimals,
    AmountTooLarge,
}

/// The message shown to the user for `e`.
pub open spec fn error_message(e: ValidationError) -> Seq<char> {
    match e {
        ValidationError::NameTooShort { field, min_len } => field@ + " must be at least "@
            + decimal(min_len as nat) + " character"@ + (if min_len == 1 {
            ""@
        } else {
            "s"@
        }),
        ValidationError::NameTooLong { field, max_len } => field@ + " must be "@ + decimal(
            max_len as nat,
        ) + " characters or less"@,
        ValidationError::DescriptionTooLong { max_len } => "Description must be "@ + decimal(
            max_len as nat,
        ) + " characters or less"@,
        ValidationError::UsernameRequired => "Username is required"@,
        ValidationError::UsernameTooShort => "Username must be at least 3 characters"@,
        ValidationError::UsernameTooLong => "Username must be 50 characters or less"@,
        ValidationError::UsernameInvalidChars =>
            "Username can only contain letters, numbers, underscores, and hyphens"@,
        ValidationError::PasswordRequired => "Password is required"@,
        ValidationError::PasswordTooShort => "Password must be at least 8 characters"@,
        ValidationError::PasswordTooLong => "Password must be 128 characters or less"@,
        ValidationError::PasswordNoLetter => "Password must contain at least one letter"@,
        ValidationError::EmailRequired => "Email is required"@,
        ValidationError::EmailInvalid =>
            "Invalid email format. Please enter a valid email address (e.g., user@example.com)"@,
        ValidationError::AmountRequired => "Amount is required"@,
        ValidationError::AmountInvalidFormat =>
            "Invalid amount format. Please use numbers and a decimal point (e.g., 10.50)"@,
        ValidationError::AmountNotPositive => "Amount must be greater than zero"@,
        ValidationError::AmountTooManyDecimals => "Amount can have at most 2 decimal places"@,
        ValidationError::AmountTooLarge => "Amount is too large. Maximum is 999,999,999.99"@,
    }
}

impl ValidationError {
    /// The message shown to the user.
    pub fn message(&self) -> (r: String)
        ensures
            r@ == error_message(*self),
    {
        let mut out = String::new();
        match self {
            ValidationError::NameTooShort { field, min_len } => {
                push_str(&mut out, field.as_str());
                push_str(&mut out, " must be at least ");
                push_decimal(&mut out, *min_len as u64);
                push_str(&mut out, " character");
                if *min_len != 1 {
                    push_str(&mut out, "s");
                } else {
                    push_str(&mut out, "");
                }
            },
            ValidationError::NameTooLong { field, max_len } => {
                push_str(&mut out, field.as_str());
                push_str(&mut out, " must be ");
                push_decimal(&mut out, *max_len as u64);
                push_str(&mut out, " characters or less");
            },
            ValidationError::DescriptionTooLong { max_len } => {
                push_str(&mut out, "Description must be ");
                push_decimal(&mut out, *max_len as u64);
                push_str(&mut out, " characters or less");
            },
            ValidationError::UsernameRequired => push_str(&mut out, "Username is required"),
            ValidationError::UsernameTooShort => push_str(
                &mut out,
                "Username must be at least 3 characters",
            ),
            ValidationError::UsernameTooLong => push_str(
                &mut out,
                "Username must be 50 characters or less",
            ),
            ValidationError::UsernameInvalidChars => push_str(
                &mut out,
                "Username can only contain letters, numbers, underscores, and hyphens",
            ),
            ValidationError::PasswordRequired => push_str(&mut out, "Password is required"),
            ValidationError::PasswordTooShort => push_str(
                &mut out,
                "Password must be at least 8 characters",
            ),
            ValidationError::PasswordTooLong => push_str(
                &mut out,
                "Password must be 128 characters or less",
            ),
            ValidationError::PasswordNoLetter => push_str(
                &mut out,
                "Password must contain at least one letter",
            ),
            ValidationError::EmailRequired => push_str(&mut out, "Email is required"),
            ValidationError::EmailInvalid => push_str(
                &mut out,
                "Invalid email format. Please enter a valid email address (e.g., user@example.com)",
            ),
            ValidationError::AmountRequired => push_str(&mut out, "Amount is required"),
            ValidationError::AmountInvalidFormat => push_str(
                &mut out,
                "Invalid amount format. Please use numbers and a decimal point (e.g., 10.50)",
            ),
            ValidationError::AmountNotPositive => push_str(
                &mut out,
                "Amount must be greater than zero",
            ),
            ValidationError::AmountTooManyDecimals => push_str(
                &mut out,
                "Amount can have at most 2 decimal places",
            ),
            ValidationError::AmountTooLarge => push_str(
                &mut out,
                "Amount is too large. Maximum is 999,999,999.99",
            ),
        }
        proof {
            assert(out@ =~= error_message(*self));
        }
        out
    }
}

/// A sanitised name of acceptable length: non-empty and between
/// `min_len` and `max_len` bytes.
pub open spec fn name_fits(s: Seq<char>, min_len: usize, max_len: usize) -> bool {
    s.len() > 0 && min_len <= utf8_len(s) <= max_len
}

/// Sanitises a name field (groups, debts, ...) and checks its length in
/// bytes.
pub fn validate_name(input: &str, min_len: usize, max_len: usize, field_name: &str) -> (r: Result<
    String,
    ValidationError,
>)
    ensures
        ({
            let s = sanitized(input@);
            if s.len() == 0 || utf8_len(s) < min_len {
                r matches Err(ValidationError::NameTooShort { field, min_len: m }) && field@
                    == field_name@ && m == min_len
            } else if utf8_len(s) > max_len {
                r matches Err(ValidationError::NameTooLong { field, max_len: m }) && field@
                    == field_name@ && m == max_len
            } else {
                r matches Ok(v) && v@ == s
            }
        }),
{
    let sanitized_text = sanitize_string(input);
    let len = utf8_len_upto(sanitized_text.as_str(), usize::MAX);
    let empty = sanitized_text.as_str().is_empty();
    let too_short = match len {
        Some(n) => empty || n < min_len,
        None => empty,
    };
    if too_short {
        return Err(ValidationError::NameTooShort { field: field_name.to_owned(), min_len });
    }
    let too_long = match len {
        Some(n) => n > max_len,
        None => true,
    };
    if too_long {
        return Err(ValidationError::NameTooLong { field: field_name.to_owned(), max_len });
    }
    Ok(sanitized_text)
}

/// Sanitises a description, which may be empty, and checks that it is at
/// most `max_len` bytes long.
pub fn validate_description(description: &str, max_len: usize) -> (r: Result<
    String,
    ValidationError,
>)
    ensures
        utf8_len(sanitized(description@)) > max_len ==> (r matches Err(
            ValidationError::DescriptionTooLong { max_len: m },
        ) && m == max_len),
        utf8_len(sanitized(description@)) <= max_len ==> (r matches Ok(v) && v@ == sanitized(
            description@,
        )),
{
    let sanitized_text = sanitize_string(description);
    match utf8_len_upto(sanitized_text.as_str(), max_len) {
        Some(_) => Ok(sanitized_text),
        None => Err(ValidationError::DescriptionTooLong { max_len }),
    }
}

/// Every character of `s` is a letter or digit, `_` or `-`.
pub open spec fn username_chars_ok(s: Seq<char>) -> bool {
    forall|i: int|
        0 <= i < s.len() ==> is_alphanumeric_char(#[trigger] s[i]) || s[i] == '_' || s[i] == '-'
}

/// What validating `username` gives: the sanitised text, or the first
/// check it fails.
pub open spec fn username_verdict(username: Seq<char>) -> Result<Seq<char>, ValidationError> {
    let s = sanitized(username);
    if s.len() == 0 {
        Err(ValidationError::UsernameRequired)
    } else if s.len() < 3 {
        Err(ValidationError::UsernameTooShort)
    } else if s.len() > 50 {
        Err(ValidationError::UsernameTooLong)
    } else if !username_chars_ok(s) {
        Err(ValidationError::UsernameInvalidChars)
    } else {
        Ok(s)
    }
}

/// An accepted username is the sanitised input, 3 to 50 characters long,
/// and every one of its characters is a letter or digit, `_` or `-`.
pub proof fn law_accepted_username_chars(username: Seq<char>)
    ensures
        username_verdict(username) matches Ok(v) ==> {
            &&& v == sanitized(username)
            &&& 3 <= v.len() <= 50
            &&& forall|i: int|
                0 <= i < v.len() ==> is_alphanumeric_char(#[trigger] v[i]) || v[i] == '_' || v[i]
                    == '-'
        },
{
}

/// A username of acceptable length holding any other character (a `.`, a
/// space, ...) is refused for its characters.
pub proof fn law_username_other_char_refused(username: Seq<char>, i: int)
    requires
        3 <= sanitized(username).len() <= 50,
        0 <= i < sanitized(username).len(),
        !(is_alphanumeric_char(sanitized(username)[i]) || sanitized(username)[i] == '_'
            || sanitized(username)[i] == '-'),
    ensures
        username_verdict(username) == Err::<Seq<char>, ValidationError>(
            ValidationError::UsernameInvalidChars,
        ),
{
}

/// Sanitises a username and checks it: 3 to 50 characters, each a letter,
/// a digit, an underscore or a hyphen.
pub fn validate_username(username: &str) -> (r: Result<String, ValidationError>)
    ensures
        match r {
            Ok(v) => username_verdict(username@) == Ok::<Seq<char>, ValidationError>(v@),
            Err(e) => username_verdict(username@) == Err::<Seq<char>, ValidationError>(e),
        },
        ({
            let s = sanitized(username@);
            if s.len() == 0 {
                r matches Err(ValidationError::UsernameRequired)
            } else if s.len() < 3 {
                r matches Err(ValidationError::UsernameTooShort)
            } else if s.len() > 50 {
                r matches Err(ValidationError::UsernameTooLong)
            } else if !username_chars_ok(s) {
                r matches Err(ValidationError::UsernameInvalidChars)
            } else {
                r matches Ok(v) && v@ == s
            }
        }),
{
    let sanitized_text = sanitize_string(username);
    let chars = chars_of(sanitized_text.as_str());
    let n = chars.len();
    if n == 0 {
        return Err(ValidationError::UsernameRequired);
    }
    if n < 3 {
        return Err(ValidationError::UsernameTooShort);
    }
    if n > 50 {
        return Err(ValidationError::UsernameTooLong);
    }
    let ghost s = sanitized_text@;
    let mut i: usize = 0;
    while i < n
        invariant
            chars@ == s,
            n == s.len(),
            s == sanitized(username@),
            3 <= n <= 50,
            i <= n,
            forall|k: int|
                0 <= k < i ==> is_alphanumeric_char(#[trigger] s[k]) || s[k] == '_' || s[k] == '-',
        decreases n - i,
    {
        let c = chars[i];
        if !(char_is_alphanumeric(c) || c == '_' || c == '-') {
            return Err(ValidationError::UsernameInvalidChars);
        }
        i = i + 1;
    }
    Ok(sanitized_text)
}

/// Some character of `s` is a letter.
pub open spec fn has_letter(s: Seq<char>) -> bool {
    exists|i: int| 0 <= i < s.len() && is_letter(#[trigger] s[i])
}

/// Checks a password, as typed: 8 to 128 characters with at least one
/// letter.
pub fn validate_password(password: &str) -> (r: Result<(), ValidationError>)
    ensures
        if password@.len() == 0 {
            r matches Err(ValidationError::PasswordRequired)
        } else if password@.len() < 8 {
            r matches Err(ValidationError::PasswordTooShort)
        } else if password@.len() > 128 {
            r matches Err(ValidationError::PasswordTooLong)
        } else if !has_letter(password@) {
            r matches Err(ValidationError::PasswordNoLetter)
        } else {
            r is Ok
        },
{
    let chars = chars_of(password);
    let n = chars.len();
    if n == 0 {
        return Err(ValidationError::PasswordRequired);
    }
    if n < 8 {
        return Err(ValidationError::PasswordTooShort);
    }
    if n > 128 {
        return Err(ValidationError::PasswordTooLong);
    }
    let mut i: usize = 0;
    while i < n
        invariant
            chars@ == password@,
            n == password@.len(),
            8 <= n <= 128,
            i <= n,
            forall|k: int| 0 <= k < i ==> !is_letter(#[trigger] password@[k]),
        decreases n - i,
    {
        if char_is_alphabetic(chars[i]) {
            return Ok(());
        }
        i = i + 1;
    }
    Err(ValidationError::PasswordNoLetter)
}

/// Checks an address that has already been sanitised and lower-cased: it
/// must be non-empty and well-formed; it is returned as it is.
pub fn check_lowered_email(lowered: String) -> (r: Result<String, ValidationError>)
    ensures
        if lowered@.len() == 0 {
            r matches Err(ValidationError::EmailRequired)
        } else if !email_accepted(lowered@) {
            r matches Err(ValidationError::EmailInvalid)
        } else {
            r matches Ok(v) && v@ == lowered@
        },
{
    if lowered.as_str().is_empty() {
        return Err(ValidationError::EmailRequired);
    }
    if !is_valid_email(lowered.as_str()) {
        return Err(ValidationError::EmailInvalid);
    }
    Ok(lowered)
}

/// Sanitises and lower-cases an e-mail address, then checks it. An address
/// it accepts is accepted again, unchanged.
pub fn validate_email(email: &str) -> (r: Result<String, ValidationError>)
    ensures
        ({
            let l = lowercased(sanitized(email@));
            if l.len() == 0 {
                r matches Err(ValidationError::EmailRequired)
            } else if !email_accepted(l) {
                r matches Err(ValidationError::EmailInvalid)
            } else {
                r matches Ok(v) && v@ == l
            }
        }),
        r matches Ok(v) ==> lowercased(sanitized(v@)) == v@,
{
    let sanitized_text = sanitize_string(email);
    let lowered = to_lowercase(sanitized_text.as_str());
    proof {
        let t = sanitized_text@;
        if is_ascii_text(t) {
            assert forall|i: int| 0 <= i < lowered@.len() implies !spec_is_ascii_upper(
                #[trigger] lowered@[i],
            ) by {
                assert(lowered@[i] == ascii_lower_char(t[i]));
            }
        }
        if lowered@.len() > 0 && email_accepted(lowered@) {
            lemma_accepted_lower_is_fixed(lowered@);
        }
    }
    check_lowered_email(lowered)
}

/// The checks an amount of money must pass once parsed: it is above zero,
/// has at most two decimal places (by its scale, as written) and is at
/// most 999,999,999.99.
pub open spec fn amount_verdict(parsed: Result<Amount, Seq<char>>) -> Result<Amount, ValidationError> {
    match parsed {
        Err(_) => Err(ValidationError::AmountInvalidFormat),
        Ok(a) => if !a.is_positive() {
            Err(ValidationError::AmountNotPositive)
        } else if a.scale > 2 {
            Err(ValidationError::AmountTooManyDecimals)
        } else if exceeds_hundredths(a, 99_999_999_999) {
            Err(ValidationError::AmountTooLarge)
        } else {
            Ok(a)
        },
    }
}

/// Applies the amount checks to the outcome of parsing.
pub fn check_amount(parsed: Result<Amount, String>) -> (r: Result<Amount, ValidationError>)
    requires
        parsed matches Ok(a) ==> a.wf(),
    ensures
        r == amount_verdict(crate::money::parse_result_view(parsed)),
{
    match parsed {
        Err(_) => Err(ValidationError::AmountInvalidFormat),
        Ok(a) => {
            if a.mantissa <= 0 {
                Err(ValidationError::AmountNotPositive)
            } else if a.scale > 2 {
                Err(ValidationError::AmountTooManyDecimals)
            } else if amount_exceeds_hundredths(a, 99_999_999_999) {
                Err(ValidationError::AmountTooLarge)
            } else {
                Ok(a)
            }
        },
    }
}

/// Validates an amount of money typed by a user: sanitised, required,
/// a decimal number above zero with at most two decimal places, and at
/// most 999,999,999.99.
pub fn validate_amount(amount: &str) -> (r: Result<Amount, ValidationError>)
    ensures
        sanitized(amount@).len() == 0 ==> r matches Err(ValidationError::AmountRequired),
        sanitized(amount@).len() > 0 ==> r == amount_verdict(decimal_from_str(sanitized(amount@))),
        r matches Ok(a) ==> a.wf(),
{
    let sanitized_text = sanitize_string(amount);
    if sanitized_text.as_str().is_empty() {
        return Err(ValidationError::AmountRequired);
    }
    let parsed = parse_decimal(sanitized_text.as_str());
    check_amount(parsed)
}

/// A name that passed validation passes again, unchanged: sanitising is
/// idempotent, so the accepted text is its own sanitisation.
pub proof fn law_validated_name_is_stable(input: Seq<char>, min_len: usize, max_len: usize)
    requires
        name_fits(sanitized(input), min_len, max_len),
    ensures
        sanitized(sanitized(input)) == sanitized(input),
        name_fits(sanitized(sanitized(input)), min_len, max_len),
{
    law_sanitize_idempotent(input);
}

/// An accepted address that holds no capital letter is its own
/// sanitised, lower-cased form.
proof fn lemma_accepted_lower_is_fixed(l: Seq<char>)
    requires
        email_accepted(l),
        forall|i: int| 0 <= i < l.len() ==> !spec_is_ascii_upper(#[trigger] l[i]),
    ensures
        lowercased(sanitized(l)) == l,
{
    lemma_accepted_chars(l);
    lemma_sanitized_plain(l);
    assert(is_ascii_text(l));
    assert(ascii_lowercase(l) =~= l) by {
        assert forall|i: int| 0 <= i < l.len() implies #[trigger] ascii_lowercase(l)[i] == l[i] by {
            assert(!spec_is_ascii_upper(l[i]));
        }
    }
}

} // verus!
