use rust_decimal::Decimal;
use rustify_app::money::Amount;
use rustify_app::text::sanitize_string;
use rustify_app::validation::{
    check_amount, check_lowered_email, validate_amount, validate_description, validate_email,
    validate_name, validate_password, validate_username, ValidationError,
};
use rustify_app::email::is_valid_email;

fn as_decimal(a: Amount) -> Decimal {
    Decimal::from_i128_with_scale(a.mantissa, a.scale)
}

#[test]
fn test_sanitize_string() {
    assert_eq!(sanitize_string("  hello  "), "hello");
    assert_eq!(sanitize_string("hello\nworld"), "hello world");
    assert_eq!(sanitize_string("test\x00string"), "teststring");
    assert_eq!(sanitize_string("\t  spaces  \n"), "spaces");
}

#[test]
fn test_validate_name() {
    assert!(validate_name("My Group", 1, 255, "Group name").is_ok());
    assert!(validate_name("A", 1, 255, "Group name").is_ok());
    assert!(validate_name("", 1, 255, "Group name").is_err());
    assert!(validate_name(&"a".repeat(300), 1, 255, "Group name").is_err());
    assert!(validate_name("  Valid  ", 1, 255, "Group name").is_ok());
}

#[test]
fn test_validate_username() {
    assert!(validate_username("john_doe").is_ok());
    assert!(validate_username("user-123").is_ok());
    assert!(validate_username("User123").is_ok());
    assert!(validate_username("ab").is_err()); // Too short
    assert!(validate_username(&"a".repeat(51)).is_err()); // Too long
    assert!(validate_username("user@email").is_err()); // Invalid chars
    assert!(validate_username("user name").is_err()); // Space not allowed
}

#[test]
fn test_validate_password() {
    assert!(validate_password("password123").is_ok());
    assert!(validate_password("Pass1234").is_ok());
    assert!(validate_password("12345abcd").is_ok());
    assert!(validate_password("noNumbersHere").is_ok()); // Letters only is fine
    assert!(validate_password("short1").is_err()); // Too short
    assert!(validate_password("12345678").is_err()); // No letters
    assert!(validate_password("").is_err()); // Empty
}

#[test]
fn test_is_valid_email() {
    assert!(is_valid_email("user@example.com"));
    assert!(is_valid_email("user.name+tag@example.co.uk"));
    assert!(is_valid_email("user_name@example-domain.com"));
    assert!(is_valid_email("user123@test.org"));

    assert!(!is_valid_email(""));
    assert!(!is_valid_email("a@b.c")); // TLD too short
    assert!(!is_valid_email("@example.com")); // No local part
    assert!(!is_valid_email("user@")); // No domain
    assert!(!is_valid_email("user example@test.com")); // Space
    assert!(!is_valid_email("user@.com")); // Domain starts with dot
    assert!(!is_valid_email("user@@example.com")); // Double @

    let long_email = format!("{}@example.com", "a".repeat(250));
    assert!(!is_valid_email(&long_email));
}

#[test]
fn test_validate_email() {
    assert_eq!(
        validate_email("User@Example.COM").unwrap(),
        "user@example.com"
    );
    assert_eq!(
        validate_email("  user@test.com  ").unwrap(),
        "user@test.com"
    );
    assert!(validate_email("").is_err());
    assert!(validate_email("invalid").is_err());
}

#[test]
fn test_validate_amount() {
    assert_eq!(as_decimal(validate_amount("10.50").unwrap()), Decimal::new(1050, 2));
    assert_eq!(as_decimal(validate_amount("100").unwrap()), Decimal::from(100));
    assert_eq!(as_decimal(validate_amount("0.01").unwrap()), Decimal::new(1, 2));

    assert!(validate_amount("0").is_err()); // Zero
    assert!(validate_amount("-5").is_err()); // Negative
    assert!(validate_amount("10.999").is_err()); // Too many decimals
    assert!(validate_amount("abc").is_err()); // Invalid format
    assert!(validate_amount("").is_err()); // Empty
    assert!(validate_amount("1000000000").is_err()); // Too large
}

#[test]
fn sanitize_collapses_inner_whitespace_and_controls() {
    assert_eq!(sanitize_string("a \u{0}  b"), "a b");
    assert_eq!(sanitize_string("a\u{a0}\u{2003}b"), "a b");
    assert_eq!(sanitize_string("\u{85}x\u{7f}y\u{9f}"), "xy");
    assert_eq!(sanitize_string(""), "");
    assert_eq!(sanitize_string(" \t\r\n "), "");
    assert_eq!(sanitize_string("já  ño"), "já ño");
}

#[test]
fn sanitize_is_idempotent_on_examples() {
    for s in ["  hello  world ", "a\u{0}b\tc\n\nd", "\u{2028}x\u{3000}y\u{205f}", "plain"] {
        let once = sanitize_string(s);
        assert_eq!(sanitize_string(&once), once);
    }
}

#[test]
fn name_errors_and_messages() {
    let e = validate_name("", 1, 255, "Group name").unwrap_err();
    assert_eq!(e, ValidationError::NameTooShort { field: "Group name".to_string(), min_len: 1 });
    assert_eq!(e.message(), "Group name must be at least 1 character");
    let e = validate_name("ab", 3, 255, "Debt name").unwrap_err();
    assert_eq!(e.message(), "Debt name must be at least 3 characters");
    let e = validate_name(&"a".repeat(300), 1, 255, "Group name").unwrap_err();
    assert_eq!(e, ValidationError::NameTooLong { field: "Group name".to_string(), max_len: 255 });
    assert_eq!(e.message(), "Group name must be 255 characters or less");
    assert_eq!(validate_name("  My   Group ", 1, 255, "Group name").unwrap(), "My Group");
    // the length limit counts bytes: "é" is two
    assert!(validate_name("éé", 1, 3, "Name").is_err());
    assert!(validate_name("éa", 1, 3, "Name").is_ok());
    assert_eq!(validate_name("abc", 3, 3, "Name").unwrap(), "abc");
}

#[test]
fn validated_name_is_stable() {
    let first = validate_name("  Summer \n trip  ", 1, 255, "Group name").unwrap();
    assert_eq!(validate_name(&first, 1, 255, "Group name").unwrap(), first);
}

#[test]
fn description_rules() {
    assert_eq!(validate_description("", 10).unwrap(), "");
    assert_eq!(validate_description("  some   text ", 10).unwrap(), "some text");
    let e = validate_description("0123456789x", 10).unwrap_err();
    assert_eq!(e, ValidationError::DescriptionTooLong { max_len: 10 });
    assert_eq!(e.message(), "Description must be 10 characters or less");
}

#[test]
fn username_errors() {
    assert_eq!(validate_username("   ").unwrap_err(), ValidationError::UsernameRequired);
    assert_eq!(validate_username("ab").unwrap_err(), ValidationError::UsernameTooShort);
    assert_eq!(validate_username(&"a".repeat(51)).unwrap_err(), ValidationError::UsernameTooLong);
    assert_eq!(validate_username("user name").unwrap_err(), ValidationError::UsernameInvalidChars);
    assert_eq!(validate_username("  bob_1  ").unwrap(), "bob_1");
    assert_eq!(validate_username("ünïcode").unwrap(), "ünïcode");
    assert_eq!(validate_username(&"a".repeat(50)).unwrap(), "a".repeat(50));
    // Lengths are counted in characters, not bytes.
    assert_eq!(validate_username("éé").unwrap_err(), ValidationError::UsernameTooShort);
    assert_eq!(validate_username("ééé").unwrap(), "ééé");
    assert_eq!(validate_username(&"é".repeat(50)).unwrap(), "é".repeat(50));
    assert_eq!(validate_username(&"é".repeat(51)).unwrap_err(), ValidationError::UsernameTooLong);
    assert_eq!(
        ValidationError::UsernameInvalidChars.message(),
        "Username can only contain letters, numbers, underscores, and hyphens"
    );
}

#[test]
fn password_errors() {
    assert_eq!(validate_password("").unwrap_err(), ValidationError::PasswordRequired);
    assert_eq!(validate_password("abc").unwrap_err(), ValidationError::PasswordTooShort);
    assert_eq!(
        validate_password(&"a".repeat(129)).unwrap_err(),
        ValidationError::PasswordTooLong
    );
    assert!(validate_password(&"a".repeat(128)).is_ok());
    assert_eq!(validate_password("12345678").unwrap_err(), ValidationError::PasswordNoLetter);
    assert!(validate_password("1234567é").is_ok());
    // Lengths are counted in characters, not bytes.
    assert_eq!(validate_password("éééé").unwrap_err(), ValidationError::PasswordTooShort);
    assert!(validate_password(&"é".repeat(128)).is_ok());
    assert_eq!(
        validate_password(&"é".repeat(129)).unwrap_err(),
        ValidationError::PasswordTooLong
    );
    assert_eq!(
        ValidationError::PasswordNoLetter.message(),
        "Password must contain at least one letter"
    );
}

#[test]
fn email_grammar_edges() {
    assert!(is_valid_email("a@bc"));
    assert!(!is_valid_email("a@b"));
    assert!(!is_valid_email("a@-bc.com"));
    assert!(!is_valid_email("a@bc-.com"));
    assert!(is_valid_email("a@b-c.com"));
    assert!(!is_valid_email("a@bc..com"));
    assert!(!is_valid_email("a@bc.com."));
    assert!(!is_valid_email("a@bc.c"));
    assert!(is_valid_email("!#$%&'*+/=?^_`{|}~-@x.io"));
    assert!(!is_valid_email("a(b)@x.io"));
    assert!(!is_valid_email("ü@x.io"));
    let label63 = "a".repeat(63);
    let label64 = "a".repeat(64);
    assert!(is_valid_email(&format!("u@{}.com", label63)));
    assert!(!is_valid_email(&format!("u@{}.com", label64)));
    let at_limit = format!("{}@example.com", "a".repeat(254 - 12));
    assert_eq!(at_limit.len(), 254);
    assert!(is_valid_email(&at_limit));
    let over = format!("{}@example.com", "a".repeat(255 - 12));
    assert!(!is_valid_email(&over));
}

#[test]
fn validated_email_is_stable() {
    let v = validate_email("  John.Doe@Example.COM ").unwrap();
    assert_eq!(v, "john.doe@example.com");
    assert_eq!(validate_email(&v).unwrap(), v);
    assert_eq!(validate_email("X@Y.ZZ").unwrap(), "x@y.zz");
}

#[test]
fn email_errors() {
    assert_eq!(validate_email("   ").unwrap_err(), ValidationError::EmailRequired);
    assert_eq!(validate_email("nope").unwrap_err(), ValidationError::EmailInvalid);
    assert_eq!(check_lowered_email(String::new()).unwrap_err(), ValidationError::EmailRequired);
    assert_eq!(check_lowered_email("x@y.zz".to_string()).unwrap(), "x@y.zz");
    assert_eq!(
        ValidationError::EmailInvalid.message(),
        "Invalid email format. Please enter a valid email address (e.g., user@example.com)"
    );
}

#[test]
fn amount_errors_and_checks() {
    assert_eq!(validate_amount("  ").unwrap_err(), ValidationError::AmountRequired);
    assert_eq!(validate_amount("abc").unwrap_err(), ValidationError::AmountInvalidFormat);
    assert_eq!(validate_amount("0").unwrap_err(), ValidationError::AmountNotPositive);
    assert_eq!(validate_amount("10.999").unwrap_err(), ValidationError::AmountTooManyDecimals);
    assert_eq!(validate_amount("10.500").unwrap_err(), ValidationError::AmountTooManyDecimals);
    assert_eq!(validate_amount("1000000000").unwrap_err(), ValidationError::AmountTooLarge);
    assert_eq!(validate_amount("1000000000.00").unwrap_err(), ValidationError::AmountTooLarge);
    assert_eq!(validate_amount("999999999.991").unwrap_err(), ValidationError::AmountTooManyDecimals);
    let max = validate_amount("999999999.99").unwrap();
    assert_eq!(max, Amount { mantissa: 99999999999, scale: 2 });
    assert_eq!(validate_amount("999999999.01").unwrap(), Amount { mantissa: 99999999901, scale: 2 });
    assert_eq!(validate_amount("999999999.9").unwrap(), Amount { mantissa: 9999999999, scale: 1 });
    let cents = validate_amount(" 12.34 ").unwrap();
    assert_eq!(cents, Amount { mantissa: 1234, scale: 2 });
    assert_eq!(
        check_amount(Ok(Amount { mantissa: 1050, scale: 2 })).unwrap(),
        Amount { mantissa: 1050, scale: 2 }
    );
    assert_eq!(
        check_amount(Ok(Amount { mantissa: 100000000000, scale: 2 })).unwrap_err(),
        ValidationError::AmountTooLarge
    );
    assert_eq!(
        check_amount(Ok(Amount { mantissa: 10000000000, scale: 1 })).unwrap_err(),
        ValidationError::AmountTooLarge
    );
    assert_eq!(
        check_amount(Err("bad".to_string())).unwrap_err(),
        ValidationError::AmountInvalidFormat
    );
    assert_eq!(
        ValidationError::AmountTooLarge.message(),
        "Amount is too large. Maximum is 999,999,999.99"
    );
}

#[test]
fn validated_amounts_are_representable_and_emails_stable_beyond_ascii() {
    let a = validate_amount("12.5").unwrap();
    assert_eq!(a, Amount { mantissa: 125, scale: 1 });
    // The Kelvin sign lower-cases to an ASCII 'k'.
    let v = validate_email("\u{212A}x@y.zz").unwrap();
    assert_eq!(v, "kx@y.zz");
    assert_eq!(validate_email(&v).unwrap(), v);
}
