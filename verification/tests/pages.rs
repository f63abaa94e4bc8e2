use rustify_app::pages::{
    add_item_request, completed_toggle_label, delete_confirmed, duration_after_input,
    end_date_label, group_path, initial_selection, invite_label, invite_link, invite_path,
    invite_request, is_group_creator, login_target, marker_text, member_checkbox_disabled,
    member_count_label, non_empty, page_controls, recurring_debt_path, recurring_update_request,
    route_id, route_param_id, search_query, shopping_list_path, transaction_label,
    visible_items, GroupMemberFlag, InviteForm, ListItem, MarkerFormError, SearchTracker,
};
use rustify_app::text::{parse_i64, trim_text};

fn item(id: i64, done: bool) -> ListItem {
    ListItem { id, name: format!("item{}", id), quantity: None, category: None, is_completed: done }
}

#[test]
fn integers_parse_as_i64_from_str_does() {
    for s in ["0", "42", "-7", "+8", "007", "9223372036854775807", "-9223372036854775808"] {
        assert_eq!(parse_i64(s), s.parse::<i64>().ok(), "{}", s);
    }
    for s in ["", "-", "+", " 1", "1 ", "1a", "9223372036854775808", "-9223372036854775809", "99999999999999999999999", "--1", "١"] {
        assert_eq!(parse_i64(s), None, "{}", s);
        assert!(s.parse::<i64>().is_err());
    }
}

#[test]
fn route_ids() {
    assert_eq!(route_id(Some("12")), 12);
    assert_eq!(route_id(Some("abc")), 0);
    assert_eq!(route_id(None), 0);
    assert_eq!(route_param_id(Some("5")), Some(5));
    assert_eq!(route_param_id(Some("x")), None);
    assert_eq!(route_param_id(None), None);
}

#[test]
fn paths() {
    assert_eq!(group_path(7), "/groups/7");
    assert_eq!(group_path(-3), "/groups/-3");
    assert_eq!(group_path(i64::MIN), format!("/groups/{}", i64::MIN));
    assert_eq!(recurring_debt_path(1, 20), "/groups/1/recurring-debts/20");
    assert_eq!(shopping_list_path(4, 9), "/groups/4/shopping-lists/9");
    assert_eq!(invite_path("ab-cd"), "/invite/ab-cd");
    assert_eq!(invite_link(Some("https://x.io"), "u1"), "https://x.io/invite/u1");
    assert_eq!(invite_link(None, "u1"), "/invite/u1");
    assert_eq!(login_target(None), "/groups");
    assert_eq!(login_target(Some("/invite/u1".to_string())), "/invite/u1");
}

#[test]
fn controls() {
    assert_eq!(page_controls(1, 2, 1), (true, false));
    assert_eq!(page_controls(1, 2, 2), (false, true));
    let members = vec![
        GroupMemberFlag { id: 1, is_creator: true },
        GroupMemberFlag { id: 2, is_creator: false },
    ];
    assert!(is_group_creator(&members, 1));
    assert!(!is_group_creator(&members, 2));
    assert!(!is_group_creator(&members, 3));
    assert!(member_checkbox_disabled(1, 1, true));
    assert!(!member_checkbox_disabled(2, 1, true));
    assert!(!member_checkbox_disabled(1, 1, false));
    assert!(delete_confirmed(Some(true)));
    assert!(!delete_confirmed(Some(false)));
    assert!(!delete_confirmed(None));
}

#[test]
fn labels() {
    assert_eq!(transaction_label(None), "Payment");
    assert_eq!(transaction_label(Some("Rent".to_string())), "Rent");
    assert_eq!(invite_label(None), "Invite");
    assert_eq!(end_date_label(None), "Never");
    assert_eq!(end_date_label(Some("2025-01-01".to_string())), "2025-01-01");
    assert_eq!(member_count_label(1), "1 member");
    assert_eq!(member_count_label(0), "0 members");
    assert_eq!(member_count_label(12), "12 members");
    assert_eq!(completed_toggle_label(true), "Hide completed");
    assert_eq!(completed_toggle_label(false), "Show completed");
}

#[test]
fn shopping_list_items_and_requests() {
    let items = vec![item(1, false), item(2, true), item(3, false)];
    let shown: Vec<i64> = visible_items(items.clone(), false).iter().map(|i| i.id).collect();
    assert_eq!(shown, vec![1, 3]);
    let all: Vec<i64> = visible_items(items, true).iter().map(|i| i.id).collect();
    assert_eq!(all, vec![1, 2, 3]);
    let r = add_item_request(4, "Milk".to_string(), String::new(), "Dairy".to_string());
    assert_eq!(r.list_id, 4);
    assert_eq!(r.name, "Milk");
    assert_eq!(r.quantity, None);
    assert_eq!(r.category, Some("Dairy".to_string()));
    assert_eq!(non_empty(" ".to_string()), Some(" ".to_string()));
}

#[test]
fn invites_and_debts() {
    let r = invite_request(3, String::new(), 7, true);
    assert_eq!((r.group_id, r.name, r.duration_days, r.is_reusable), (3, None, 7, true));
    let r = invite_request(3, "Team".to_string(), 2, false);
    assert_eq!(r.name, Some("Team".to_string()));
    assert_eq!(duration_after_input(7, "14"), 14);
    assert_eq!(duration_after_input(7, ""), 7);
    assert_eq!(duration_after_input(7, "1x"), 7);
    let f = InviteForm::reset();
    assert_eq!((f.name.as_str(), f.duration_days, f.is_reusable), ("", 7, false));
    let u = recurring_update_request(
        5,
        "Rent".to_string(),
        "900".to_string(),
        "monthly".to_string(),
        String::new(),
        None,
        vec![1, 2],
    );
    assert_eq!(u.end_date, None);
    assert!(u.is_active);
    assert_eq!(u.member_ids, vec![1, 2]);
    let u = recurring_update_request(
        5,
        "Rent".to_string(),
        "900".to_string(),
        "monthly".to_string(),
        "2026-01-01".to_string(),
        Some(false),
        vec![],
    );
    assert_eq!(u.end_date, Some("2026-01-01".to_string()));
    assert!(!u.is_active);
    assert_eq!(initial_selection(vec![], vec![1, 2, 3]), vec![1, 2, 3]);
    assert_eq!(initial_selection(vec![2], vec![1, 2, 3]), vec![2]);
}

#[test]
fn markers_and_search() {
    let m = marker_text("  Cafe ", "  ", " Main St 1 ").unwrap();
    assert_eq!(m.name, "Cafe");
    assert_eq!(m.description, None);
    assert_eq!(m.address, Some("Main St 1".to_string()));
    assert_eq!(marker_text(" \t", "d", "a").unwrap_err(), MarkerFormError::NameRequired);
    assert_eq!(MarkerFormError::NameRequired.message(), "Marker name is required");
    assert_eq!(search_query("  ab  "), None);
    assert_eq!(search_query(" abc "), Some("abc".to_string()));
    assert_eq!(search_query("é"), None);
    assert_eq!(search_query("éa"), Some("éa".to_string()));
    let mut t = SearchTracker::new();
    let first = t.begin();
    let second = t.begin();
    assert!(!t.is_current(first));
    assert!(t.is_current(second));
    for s in ["  a b  ", "\u{2003}x\u{2003}", "", "   ", "x"] {
        assert_eq!(trim_text(s), s.trim());
    }
}
