//! The decisions the group pages make around their rendering: which ids a
//! route names, which controls a user is offered, the paths the pages
//! navigate to, the labels they show, the items they list and the requests
//! their forms send.
use vstd::prelude::*;

use crate::text::{
    int_text, parse_i64, parsed_i64, push_int, push_str, trim_text, trimmed, utf8_len,
    utf8_len_upto,
};

verus! {

// ---------------------------------------------------------------------------
// Routes and paths

/// The id a route parameter names, if it is present and a number.
pub fn route_param_id(param: Option<&str>) -> (r: Option<i64>)
    ensures
        param matches Some(p) ==> r == parsed_i64(p@),
        param is None ==> r is None,
{
    match param {
        Some(p) => parse_i64(p),
        None => None,
    }
}

/// The id a route parameter names, or 0 when it is missing or not a
/// number.
pub fn route_id(param: Option<&str>) -> (r: i64)
    ensures
        param matches Some(p) ==> r == (match parsed_i64(p@) {
            Some(id) => id,
            None => 0,
        }),
        param is None ==> r == 0,
{
    match route_param_id(param) {
        Some(id) => id,
        None => 0,
    }
}

/// The path of a group's page.
pub open spec fn group_path_text(group_id: int) -> Seq<char> {
    "/groups/"@ + int_text(group_id)
}

/// `/groups/{group_id}`.
pub fn group_path(group_id: i64) -> (r: String)
    ensures
        r@ == group_path_text(group_id as int),
{
    let mut out = String::new();
    push_str(&mut out, "/groups/");
    push_int(&mut out, group_id);
    proof {
        assert(out@ =~= group_path_text(group_id as int));
    }
    out
}

/// The path of a page under a group: `/groups/{group_id}/{section}/{id}`.
pub open spec fn group_item_path_text(group_id: int, section: Seq<char>, id: int) -> Seq<char> {
    group_path_text(group_id) + "/"@ + section + "/"@ + int_text(id)
}

fn group_item_path(group_id: i64, section: &str, id: i64) -> (r: String)
    ensures
        r@ == group_item_path_text(group_id as int, section@, id as int),
{
    let mut out = group_path(group_id);
    push_str(&mut out, "/");
    push_str(&mut out, section);
    push_str(&mut out, "/");
    push_int(&mut out, id);
    proof {
        assert(out@ =~= group_item_path_text(group_id as int, section@, id as int));
    }
    out
}

/// `/groups/{group_id}/recurring-debts/{recurring_id}`.
pub fn recurring_debt_path(group_id: i64, recurring_id: i64) -> (r: String)
    ensures
        r@ == group_item_path_text(group_id as int, "recurring-debts"@, recurring_id as int),
{
    group_item_path(group_id, "recurring-debts", recurring_id)
}

/// `/groups/{group_id}/shopping-lists/{list_id}`.
pub fn shopping_list_path(group_id: i64, list_id: i64) -> (r: String)
    ensures
        r@ == group_item_path_text(group_id as int, "shopping-lists"@, list_id as int),
{
    group_item_path(group_id, "shopping-lists", list_id)
}

/// `/invite/{uuid}`.
pub fn invite_path(uuid: &str) -> (r: String)
    ensures
        r@ == "/invite/"@ + uuid@,
{
    let mut out = String::new();
    push_str(&mut out, "/invite/");
    push_str(&mut out, uuid);
    proof {
        assert(out@ =~= "/invite/"@ + uuid@);
    }
    out
}

/// The link an invite is shared as: the site's origin followed by the
/// invite's path, or the path alone when the origin is unknown.
pub fn invite_link(origin: Option<&str>, uuid: &str) -> (r: String)
    ensures
        origin matches Some(o) ==> r@ == o@ + "/invite/"@ + uuid@,
        origin is None ==> r@ == "/invite/"@ + uuid@,
{
    match origin {
        Some(o) => {
            let mut out = String::new();
            push_str(&mut out, o);
            let path = invite_path(uuid);
            push_str(&mut out, path.as_str());
            proof {
                assert(out@ =~= o@ + "/invite/"@ + uuid@);
            }
            out
        },
        None => invite_path(uuid),
    }
}

/// Where a signed-in user is sent from the login page: the page they were
/// on, or the list of groups.
pub fn login_target(redirect_to: Option<String>) -> (r: String)
    ensures
        redirect_to matches Some(t) ==> r == t,
        redirect_to is None ==> r@ == "/groups"@,
{
    match redirect_to {
        Some(t) => t,
        None => {
            let mut out = String::new();
            push_str(&mut out, "/groups");
            proof {
                assert(out@ =~= "/groups"@);
            }
            out
        },
    }
}

// ---------------------------------------------------------------------------
// Who is offered which controls

/// On a group's page: whether the user sees the group's invite and edit
/// links (they created the group), and whether they may edit or delete a
/// payment (they made it).
pub fn page_controls(created_by: i64, payer_id: i64, user_id: i64) -> (r: (bool, bool))
    ensures
        r == (created_by == user_id, payer_id == user_id),
{
    (created_by == user_id, payer_id == user_id)
}

/// A member of a group and whether they created it.
#[derive(Clone, Copy, Debug)]
pub struct GroupMemberFlag {
    pub id: i64,
    pub is_creator: bool,
}

/// Whether `user_id` is listed as the group's creator.
pub fn is_group_creator(members: &Vec<GroupMemberFlag>, user_id: i64) -> (r: bool)
    ensures
        r == exists|k: int|
            0 <= k < members@.len() && (#[trigger] members@[k]).id == user_id
                && members@[k].is_creator,
{
    let mut i: usize = 0;
    while i < members.len()
        invariant
            i <= members@.len(),
            forall|k: int|
                0 <= k < i ==> !((#[trigger] members@[k]).id == user_id && members@[k].is_creator),
        decreases members@.len() - i,
    {
        if members[i].id == user_id && members[i].is_creator {
            return true;
        }
        i = i + 1;
    }
    false
}

/// On the group's edit page, the creator cannot untick themselves.
pub fn member_checkbox_disabled(user_id: i64, current_user_id: i64, current_is_creator: bool) -> (r:
    bool)
    ensures
        r == (user_id == current_user_id && current_is_creator),
{
    user_id == current_user_id && current_is_creator
}

/// A deletion goes ahead only when the user confirmed it; no answer counts
/// as a refusal.
pub fn delete_confirmed(answer: Option<bool>) -> (r: bool)
    ensures
        r == (answer == Some(true)),
{
    match answer {
        Some(b) => b,
        None => false,
    }
}

// ---------------------------------------------------------------------------
// Labels

/// A text, or `fallback` when there is none.
fn text_or(value: Option<String>, fallback: &str) -> (r: String)
    ensures
        value matches Some(v) ==> r == v,
        value is None ==> r@ == fallback@,
{
    match value {
        Some(v) => v,
        None => {
            let mut out = String::new();
            push_str(&mut out, fallback);
            proof {
                assert(out@ =~= fallback@);
            }
            out
        },
    }
}

/// A payment's label: its description, or "Payment".
pub fn transaction_label(description: Option<String>) -> (r: String)
    ensures
        description matches Some(d) ==> r == d,
        description is None ==> r@ == "Payment"@,
{
    text_or(description, "Payment")
}

/// An invite's label: its name, or "Invite".
pub fn invite_label(name: Option<String>) -> (r: String)
    ensures
        name matches Some(n) ==> r == n,
        name is None ==> r@ == "Invite"@,
{
    text_or(name, "Invite")
}

/// A recurring debt's end: its date, or "Never".
pub fn end_date_label(end_date: Option<String>) -> (r: String)
    ensures
        end_date matches Some(d) ==> r == d,
        end_date is None ==> r@ == "Never"@,
{
    text_or(end_date, "Never")
}

/// "`n` member", with an "s" unless `n` is one.
pub open spec fn member_count_text(n: int) -> Seq<char> {
    int_text(n) + " member"@ + (if n == 1 {
        ""@
    } else {
        "s"@
    })
}

/// The member count shown for a group.
pub fn member_count_label(n: i64) -> (r: String)
    ensures
        r@ == member_count_text(n as int),
{
    let mut out = String::new();
    push_int(&mut out, n);
    push_str(&mut out, " member");
    if n != 1 {
        push_str(&mut out, "s");
    } else {
        push_str(&mut out, "");
    }
    proof {
        assert(out@ =~= member_count_text(n as int));
    }
    out
}

/// The label of the button that hides or shows completed items.
pub fn completed_toggle_label(show_completed: bool) -> (r: String)
    ensures
        r@ == (if show_completed {
            "Hide completed"@
        } else {
            "Show completed"@
        }),
{
    let mut out = String::new();
    if show_completed {
        push_str(&mut out, "Hide completed");
    } else {
        push_str(&mut out, "Show completed");
    }
    proof {
        assert(out@ =~= (if show_completed {
            "Hide completed"@
        } else {
            "Show completed"@
        }));
    }
    out
}

// ---------------------------------------------------------------------------
// Shopping lists

/// An item of a shopping list.
#[derive(Clone, Debug)]
pub struct ListItem {
    pub id: i64,
    pub name: String,
    pub quantity: Option<String>,
    pub category: Option<String>,
    pub is_completed: bool,
}

/// The items shown: all of them, or only those not completed.
pub open spec fn shown_items(items: Seq<ListItem>, show_completed: bool) -> Seq<ListItem>
    decreases items.len(),
{
    if items.len() == 0 {
        items
    } else {
        let rest = shown_items(items.drop_last(), show_completed);
        if show_completed || !items.last().is_completed {
            rest.push(items.last())
        } else {
            rest
        }
    }
}

/// Whether an item is shown: always when completed items are shown,
/// otherwise only when it is not completed.
pub open spec fn item_is_shown(item: ListItem, show_completed: bool) -> bool {
    show_completed || !item.is_completed
}

/// The items shown are exactly the input's items that are to be shown,
/// in their order (the input filtered by `item_is_shown`); in particular,
/// with completed items hidden no shown item is completed, every shown item
/// is an input item, and every input item that is not completed is shown.
pub proof fn law_shown_items(items: Seq<ListItem>, show_completed: bool)
    ensures
        shown_items(items, show_completed) == items.filter(
            |x: ListItem| item_is_shown(x, show_completed),
        ),
        !show_completed ==> forall|i: int|
            0 <= i < shown_items(items, show_completed).len() ==> !(#[trigger] shown_items(
                items,
                show_completed,
            )[i]).is_completed,
        forall|i: int|
            0 <= i < shown_items(items, show_completed).len() ==> items.contains(
                #[trigger] shown_items(items, show_completed)[i],
            ),
        forall|i: int|
            0 <= i < items.len() && item_is_shown(items[i], show_completed) ==> shown_items(
                items,
                show_completed,
            ).contains(#[trigger] items[i]),
        show_completed ==> shown_items(items, show_completed) == items,
    decreases items.len(),
{
    let pred = |x: ListItem| item_is_shown(x, show_completed);
    let r = shown_items(items, show_completed);
    if items.len() == 0 {
        assert(items.filter(pred) =~= items) by {
            reveal(Seq::filter);
        }
    } else {
        let d = items.drop_last();
        let r1 = shown_items(d, show_completed);
        law_shown_items(d, show_completed);
        assert(items.filter(pred) == (if pred(items.last()) {
            d.filter(pred).push(items.last())
        } else {
            d.filter(pred)
        })) by {
            reveal(Seq::filter);
        }
        assert(items.last() == items[items.len() - 1]);
        assert forall|i: int| 0 <= i < r.len() implies items.contains(#[trigger] r[i]) by {
            if i < r1.len() {
                assert(r[i] == r1[i]);
                assert(d.contains(r1[i]));
                let j = choose|j: int| 0 <= j < d.len() && d[j] == r1[i];
                assert(items[j] == d[j]);
            } else {
                assert(r[i] == items.last());
            }
        }
        assert forall|i: int|
            0 <= i < items.len() && item_is_shown(items[i], show_completed) implies r.contains(
            #[trigger] items[i],
        ) by {
            if i < d.len() {
                assert(items[i] == d[i]);
                assert(r1.contains(d[i]));
                let j = choose|j: int| 0 <= j < r1.len() && r1[j] == d[i];
                assert(r[j] == r1[j]);
            } else {
                assert(r[r.len() - 1] == items.last());
            }
        }
        if !show_completed {
            assert forall|i: int| 0 <= i < r.len() implies !(#[trigger] r[i]).is_completed by {
                if i < r1.len() {
                    assert(r[i] == r1[i]);
                }
            }
        } else {
            assert(r =~= items);
        }
    }
}

/// The items a list shows, in order: completed ones only when they are to
/// be shown.
pub fn visible_items(items: Vec<ListItem>, show_completed: bool) -> (r: Vec<ListItem>)
    ensures
        r@ == shown_items(items@, show_completed),
{
    let ghost all = items@;
    let n = items.len();
    let mut rest = items;
    let mut out: Vec<ListItem> = Vec::new();
    let mut i: usize = 0;
    while i < n
        invariant
            n == all.len(),
            i <= n,
            rest@ == all.skip(i as int),
            out@ == shown_items(all.take(i as int), show_completed),
        decreases n - i,
    {
        let item = rest.remove(0);
        proof {
            assert(item == all[i as int]);
            assert(rest@ =~= all.skip(i + 1));
            assert(all.take(i + 1).drop_last() =~= all.take(i as int));
            assert(all.take(i + 1).last() == all[i as int]);
        }
        if show_completed || !item.is_completed {
            out.push(item);
        }
        i = i + 1;
    }
    proof {
        assert(all.take(n as int) =~= all);
    }
    out
}

/// A text, or nothing when it is empty.
pub fn non_empty(s: String) -> (r: Option<String>)
    ensures
        r == (if s@.len() == 0 {
            None
        } else {
            Some(s)
        }),
{
    if s.as_str().is_empty() {
        None
    } else {
        Some(s)
    }
}

/// The request that adds an item to a list.
#[derive(Clone, Debug)]
pub struct AddItemRequest {
    pub list_id: i64,
    pub name: String,
    pub quantity: Option<String>,
    pub category: Option<String>,
}

/// Builds the add-item request from the form: an empty quantity or
/// category is sent as none.
pub fn add_item_request(list_id: i64, name: String, quantity: String, category: String) -> (r:
    AddItemRequest)
    ensures
        r.list_id == list_id,
        r.name == name,
        r.quantity == (if quantity@.len() == 0 {
            None
        } else {
            Some(quantity)
        }),
        r.category == (if category@.len() == 0 {
            None
        } else {
            Some(category)
        }),
{
    AddItemRequest { list_id, name, quantity: non_empty(quantity), category: non_empty(category) }
}

// ---------------------------------------------------------------------------
// Invites

/// The request that creates an invite.
#[derive(Clone, Debug)]
pub struct CreateInviteRequest {
    pub group_id: i64,
    pub name: Option<String>,
    pub duration_days: i64,
    pub is_reusable: bool,
}

/// Builds the create-invite request: an empty name is sent as none.
pub fn invite_request(group_id: i64, name: String, duration_days: i64, is_reusable: bool) -> (r:
    CreateInviteRequest)
    ensures
        r.group_id == group_id,
        r.name == (if name@.len() == 0 {
            None
        } else {
            Some(name)
        }),
        r.duration_days == duration_days,
        r.is_reusable == is_reusable,
{
    CreateInviteRequest { group_id, name: non_empty(name), duration_days, is_reusable }
}

/// The invite duration after the user typed into its field: the typed
/// number, or the previous duration when the text is not a number.
pub fn duration_after_input(current: i64, typed: &str) -> (r: i64)
    ensures
        r == (match parsed_i64(typed@) {
            Some(v) => v,
            None => current,
        }),
{
    match parse_i64(typed) {
        Some(v) => v,
        None => current,
    }
}

/// The invite form's fields.
#[derive(Clone, Debug)]
pub struct InviteForm {
    pub name: String,
    pub duration_days: i64,
    pub is_reusable: bool,
}

impl InviteForm {
    /// The form as it is reset after an invite was created: no name, seven
    /// days, not reusable.
    pub fn reset() -> (r: InviteForm)
        ensures
            r.name@.len() == 0,
            r.duration_days == 7,
            !r.is_reusable,
    {
        InviteForm { name: String::new(), duration_days: 7, is_reusable: false }
    }
}

// ---------------------------------------------------------------------------
// Debts

/// The request that updates a recurring debt.
#[derive(Clone, Debug)]
pub struct UpdateRecurringRequest {
    pub recurring_debt_id: i64,
    pub name: String,
    pub amount: String,
    pub frequency: String,
    pub end_date: Option<String>,
    pub is_active: bool,
    pub member_ids: Vec<i64>,
}

/// Builds the update request of the recurring-debt form: an empty end date
/// is sent as none, and the debt stays active as it was loaded (active
/// when it could not be loaded).
pub fn recurring_update_request(
    recurring_debt_id: i64,
    name: String,
    amount: String,
    frequency: String,
    end_date: String,
    loaded_active: Option<bool>,
    member_ids: Vec<i64>,
) -> (r: UpdateRecurringRequest)
    ensures
        r.recurring_debt_id == recurring_debt_id,
        r.name == name,
        r.amount == amount,
        r.frequency == frequency,
        r.end_date == (if end_date@.len() == 0 {
            None
        } else {
            Some(end_date)
        }),
        r.is_active == (match loaded_active {
            Some(a) => a,
            None => true,
        }),
        r.member_ids == member_ids,
{
    let is_active = match loaded_active {
        Some(a) => a,
        None => true,
    };
    UpdateRecurringRequest {
        recurring_debt_id,
        name,
        amount,
        frequency,
        end_date: non_empty(end_date),
        is_active,
        member_ids,
    }
}

/// The members a new shared debt starts with: those already chosen, or
/// every member of the group when none is chosen yet.
pub fn initial_selection(selected: Vec<i64>, member_ids: Vec<i64>) -> (r: Vec<i64>)
    ensures
        r@ == (if selected@.len() == 0 {
            member_ids@
        } else {
            selected@
        }),
{
    if selected.len() == 0 {
        member_ids
    } else {
        selected
    }
}

// ---------------------------------------------------------------------------
// Map markers and place search

/// The texts of a map marker's form, trimmed.
#[derive(Clone, Debug)]
pub struct MarkerText {
    pub name: String,
    pub description: Option<String>,
    pub address: Option<String>,
}

/// Why a marker's texts were refused.
#[derive(Clone, Copy, Debug, PartialEq, Eq, Structural)]
pub enum MarkerFormError {
    NameRequired,
}

impl MarkerFormError {
    /// The message shown to the user.
    pub fn message(&self) -> (r: String)
        ensures
            r@ == "Marker name is required"@,
    {
        let mut out = String::new();
        push_str(&mut out, "Marker name is required");
        proof {
            assert(out@ =~= "Marker name is required"@);
        }
        out
    }
}

/// Checks a marker's texts: the trimmed name is required; a description
/// or address that is empty once trimmed is sent as none.
pub fn marker_text(name: &str, description: &str, address: &str) -> (r: Result<
    MarkerText,
    MarkerFormError,
>)
    ensures
        trimmed(name@).len() == 0 ==> r == Err::<MarkerText, MarkerFormError>(
            MarkerFormError::NameRequired,
        ),
        trimmed(name@).len() > 0 ==> (r matches Ok(m) && m.name@ == trimmed(name@) && (if trimmed(
            description@,
        ).len() == 0 {
            m.description is None
        } else {
            m.description matches Some(d) && d@ == trimmed(description@)
        }) && (if trimmed(address@).len() == 0 {
            m.address is None
        } else {
            m.address matches Some(a) && a@ == trimmed(address@)
        })),
{
    let n = trim_text(name);
    if n.as_str().is_empty() {
        return Err(MarkerFormError::NameRequired);
    }
    let d = trim_text(description);
    let a = trim_text(address);
    Ok(MarkerText { name: n, description: non_empty(d), address: non_empty(a) })
}

/// The fewest bytes a place search is run for.
pub const SEARCH_MIN_LENGTH: usize = 3;

/// The query a place search runs for: the trimmed text, or none when it is
/// shorter than three bytes.
pub fn search_query(raw: &str) -> (r: Option<String>)
    ensures
        utf8_len(trimmed(raw@)) < SEARCH_MIN_LENGTH ==> r is None,
        utf8_len(trimmed(raw@)) >= SEARCH_MIN_LENGTH ==> (r matches Some(q) && q@ == trimmed(
            raw@,
        )),
{
    let q = trim_text(raw);
    match utf8_len_upto(q.as_str(), SEARCH_MIN_LENGTH - 1) {
        Some(_) => None,
        None => Some(q),
    }
}

/// Numbers the searches started, so that a reply to an older search is
/// recognised and dropped.
#[derive(Clone, Copy, Debug)]
pub struct SearchTracker {
    pub seq: u64,
}

impl SearchTracker {
    /// No search started yet.
    pub fn new() -> (r: SearchTracker)
        ensures
            r.seq == 0,
    {
        SearchTracker { seq: 0 }
    }

    /// Starts a search and returns its number, one more than the last.
    pub fn begin(&mut self) -> (r: u64)
        requires
            old(self).seq < u64::MAX,
        ensures
            final(self).seq == old(self).seq + 1,
            r == final(self).seq,
    {
        self.seq = self.seq + 1;
        self.seq
    }

    /// Whether a reply to search `seq` is for the latest search.
    pub fn is_current(&self, seq: u64) -> (r: bool)
        ensures
            r == (seq == self.seq),
    {
        seq == self.seq
    }
}

} // verus!
