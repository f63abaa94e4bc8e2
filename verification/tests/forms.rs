use rustify_app::forms::{
    check_payment_form, member_choice_list, name_before, toggle_member, FormError, UserEntry,
};

fn user(id: i64, name: &str) -> UserEntry {
    UserEntry { id, username: name.to_string() }
}

fn names(us: &[UserEntry]) -> Vec<(i64, String)> {
    us.iter().map(|u| (u.id, u.username.clone())).collect()
}

#[test]
fn choices_are_sorted_by_name_without_the_repeated_current_user() {
    let all = vec![user(3, "carol"), user(1, "alice"), user(2, "bob")];
    let r = member_choice_list(user(1, "alice"), all);
    assert_eq!(
        names(&r),
        vec![(1, "alice".to_string()), (2, "bob".to_string()), (3, "carol".to_string())]
    );
}

#[test]
fn choices_keep_equal_names_in_order() {
    let all = vec![user(5, "sam"), user(4, "ann"), user(6, "sam")];
    let r = member_choice_list(user(9, "zed"), all);
    assert_eq!(
        names(&r),
        vec![
            (4, "ann".to_string()),
            (5, "sam".to_string()),
            (6, "sam".to_string()),
            (9, "zed".to_string())
        ]
    );
}

#[test]
fn names_order_by_code_point() {
    assert!(name_before("Bob", "alice"));
    assert!(name_before("al", "alice"));
    assert!(!name_before("alice", "alice"));
    assert!(!name_before("b", "a"));
    assert!(name_before("", "a"));
    let mut v = vec!["b", "Z", "ab", "a", "é"];
    v.sort();
    for w in v.windows(2) {
        assert!(name_before(w[0], w[1]));
    }
}

#[test]
fn toggling_members() {
    let mut m = vec![1, 2];
    toggle_member(&mut m, 3, true);
    assert_eq!(m, vec![1, 2, 3]);
    toggle_member(&mut m, 2, true);
    assert_eq!(m, vec![1, 2, 3]);
    toggle_member(&mut m, 2, false);
    assert_eq!(m, vec![1, 3]);
    toggle_member(&mut m, 7, false);
    assert_eq!(m, vec![1, 3]);
}

#[test]
fn payment_form_checks() {
    assert_eq!(check_payment_form(0, "5", String::new()), Err(FormError::RecipientMissing));
    assert_eq!(check_payment_form(2, "", String::new()), Err(FormError::AmountMissing));
    assert_eq!(check_payment_form(2, "5", String::new()), Ok(None));
    assert_eq!(check_payment_form(2, "5", "lunch".to_string()), Ok(Some("lunch".to_string())));
    assert_eq!(FormError::RecipientMissing.message(), "Please select a recipient");
    assert_eq!(FormError::AmountMissing.message(), "Please enter an amount");
}
