//! The decisions behind the group and transaction forms: the list of users
//! offered when choosing a group's members, ticking a user in or out of
//! that choice, and the checks a payment form makes before it is sent.
use vstd::prelude::*;

use crate::text::{chars_of, push_str};

verus! {

/// A user that can be chosen as a group member.
#[derive(Clone, Debug)]
pub struct UserEntry {
    pub id: i64,
    pub username: String,
}

/// A `UserEntry` with its name taken by its view.
pub struct UserEntryView {
    pub id: i64,
    pub username: Seq<char>,
}

impl View for UserEntry {
    type V = UserEntryView;

    open spec fn view(&self) -> UserEntryView {
        UserEntryView { id: self.id, username: self.username@ }
    }
}

/// The views of a list of users.
pub open spec fn users_view(us: Seq<UserEntry>) -> Seq<UserEntryView> {
    us.map_values(|u: UserEntry| u@)
}

/// `a` comes before `b` in the order of their characters' code points,
/// a proper prefix first (the order `String` compares in).
pub open spec fn text_lt(a: Seq<char>, b: Seq<char>) -> bool
    decreases a.len(),
{
    if b.len() == 0 {
        false
    } else if a.len() == 0 {
        true
    } else if a[0] != b[0] {
        (a[0] as u32) < (b[0] as u32)
    } else {
        text_lt(a.drop_first(), b.drop_first())
    }
}

/// `x` placed into `s` after the last user whose name does not come after
/// `x`'s: in a list sorted by name, after every user of an equal name.
pub open spec fn insert_by_name(s: Seq<UserEntryView>, x: UserEntryView) -> Seq<UserEntryView>
    decreases s.len(),
{
    if s.len() == 0 {
        seq![x]
    } else if text_lt(x.username, s.last().username) {
        insert_by_name(s.drop_last(), x).push(s.last())
    } else {
        s.push(x)
    }
}

/// `s` sorted by name, users of equal names keeping their order (a stable
/// sort).
pub open spec fn sort_by_name(s: Seq<UserEntryView>) -> Seq<UserEntryView>
    decreases s.len(),
{
    if s.len() == 0 {
        s
    } else {
        insert_by_name(sort_by_name(s.drop_last()), s.last())
    }
}

/// `s` without the users that follow a kept user of the same id directly.
pub open spec fn dedup_ids(s: Seq<UserEntryView>) -> Seq<UserEntryView>
    decreases s.len(),
{
    if s.len() == 0 {
        s
    } else {
        let d = dedup_ids(s.drop_last());
        if d.len() > 0 && d.last().id == s.last().id {
            d
        } else {
            d.push(s.last())
        }
    }
}

/// The users offered for membership: the current user followed by all
/// users, sorted by name, with a user that directly follows an entry of the
/// same id left out.
pub open spec fn member_choices(current: UserEntryView, all: Seq<UserEntryView>) -> Seq<
    UserEntryView,
> {
    dedup_ids(sort_by_name(seq![current] + all))
}

/// Whether `a` comes before `b` by name.
pub fn name_before(a: &str, b: &str) -> (r: bool)
    ensures
        r == text_lt(a@, b@),
{
    let x = chars_of(a);
    let y = chars_of(b);
    let mut i: usize = 0;
    proof {
        assert(a@.skip(0) =~= a@);
        assert(b@.skip(0) =~= b@);
    }
    while i < x.len() && i < y.len() && x[i] == y[i]
        invariant
            x@ == a@,
            y@ == b@,
            i <= x.len(),
            i <= y.len(),
            text_lt(a@, b@) == text_lt(a@.skip(i as int), b@.skip(i as int)),
        decreases x.len() - i,
    {
        proof {
            assert(a@.skip(i as int).drop_first() =~= a@.skip(i + 1));
            assert(b@.skip(i as int).drop_first() =~= b@.skip(i + 1));
        }
        i = i + 1;
    }
    if i == y.len() {
        false
    } else if i == x.len() {
        true
    } else {
        (x[i] as u32) < (y[i] as u32)
    }
}

/// When every user from place `j` on has a name after `x`'s, inserting `x`
/// into the whole list inserts it into the first `j` users and keeps the
/// rest behind.
proof fn lemma_insert_split(s: Seq<UserEntryView>, x: UserEntryView, j: int)
    requires
        0 <= j <= s.len(),
        forall|k: int| j <= k < s.len() ==> text_lt(x.username, #[trigger] s[k].username),
    ensures
        insert_by_name(s, x) == insert_by_name(s.take(j), x) + s.skip(j),
    decreases s.len() - j,
{
    if j < s.len() {
        lemma_insert_split(s.drop_last(), x, j);
        assert(s.drop_last().take(j) =~= s.take(j));
        assert(s.drop_last().skip(j).push(s.last()) =~= s.skip(j));
        assert(s.last() == s[s.len() - 1]);
        assert(insert_by_name(s.take(j), x) + s.drop_last().skip(j) + seq![s.last()]
            =~= insert_by_name(s.take(j), x) + s.skip(j));
    } else {
        assert(s.take(j) =~= s);
        assert(s.skip(j) =~= Seq::<UserEntryView>::empty());
        assert(insert_by_name(s, x) + Seq::<UserEntryView>::empty() =~= insert_by_name(s, x));
    }
}

/// Places `x` into the name-sorted list `out`.
fn insert_user(out: &mut Vec<UserEntry>, x: UserEntry)
    ensures
        users_view(final(out)@) == insert_by_name(users_view(old(out)@), x@),
{
    let ghost s = users_view(out@);
    let mut j: usize = out.len();
    while j > 0 && name_before(x.username.as_str(), out[j - 1].username.as_str())
        invariant
            j <= out.len(),
            s == users_view(out@),
            forall|k: int| j <= k < s.len() ==> text_lt(x@.username, #[trigger] s[k].username),
        decreases j,
    {
        j = j - 1;
    }
    proof {
        lemma_insert_split(s, x@, j as int);
        if j > 0 {
            assert(s.take(j as int).drop_last() =~= s.take(j - 1));
            assert(s.take(j as int).last() == s[j - 1]);
        } else {
            assert(s.take(0) =~= Seq::<UserEntryView>::empty());
        }
        assert(insert_by_name(s.take(j as int), x@) =~= s.take(j as int).push(x@));
    }
    let ghost xv = x@;
    out.insert(j, x);
    proof {
        assert(users_view(out@) =~= s.take(j as int).push(xv) + s.skip(j as int));
    }
}

/// The users offered when choosing a group's members: the current user and
/// all users, sorted by name (stably), without an entry that directly
/// follows one of the same id.
pub fn member_choice_list(current: UserEntry, all: Vec<UserEntry>) -> (r: Vec<UserEntry>)
    ensures
        users_view(r@) == member_choices(current@, users_view(all@)),
{
    let ghost input = seq![current@] + users_view(all@);
    let mut sorted: Vec<UserEntry> = Vec::new();
    proof {
        assert(users_view(sorted@) =~= Seq::<UserEntryView>::empty());
    }
    insert_user(&mut sorted, current);
    proof {
        assert(input.take(1).drop_last() =~= Seq::<UserEntryView>::empty());
        assert(input.take(1).last() == input[0]);
        assert(sort_by_name(input.take(1).drop_last()) =~= Seq::<UserEntryView>::empty());
        assert(sort_by_name(input.take(1)) =~= seq![input[0]]);
    }
    let mut rest = all;
    let n = rest.len();
    let mut i: usize = 0;
    while i < n
        invariant
            n == input.len() - 1,
            i <= n,
            users_view(rest@) == input.skip(i + 1),
            users_view(sorted@) == sort_by_name(input.take(i + 1)),
        decreases n - i,
    {
        proof {
            assert(users_view(rest@).len() == rest@.len());
        }
        let ghost before = rest@;
        let x = rest.remove(0);
        proof {
            assert(users_view(before)[0] == before[0]@);
            assert(x@ == input.skip(i + 1)[0]);
            assert forall|j: int| 0 <= j < rest@.len() implies #[trigger] users_view(rest@)[j]
                == input.skip(i + 2)[j] by {
                assert(rest@[j] == before[j + 1]);
                assert(users_view(before)[j + 1] == input.skip(i + 1)[j + 1]);
            }
            assert(users_view(rest@) =~= input.skip(i + 2));
            assert(input.take(i + 2).drop_last() =~= input.take(i + 1));
            assert(input.take(i + 2).last() == input[i + 1]);
        }
        insert_user(&mut sorted, x);
        i = i + 1;
    }
    proof {
        assert(input.take(n + 1) =~= input);
    }
    let ghost sv = users_view(sorted@);
    let len = sorted.len();
    let mut out: Vec<UserEntry> = Vec::new();
    let mut k: usize = 0;
    while k < len
        invariant
            len == sv.len(),
            k <= len,
            users_view(sorted@) == sv.skip(k as int),
            users_view(out@) == dedup_ids(sv.take(k as int)),
        decreases len - k,
    {
        proof {
            assert(users_view(sorted@).len() == sorted@.len());
        }
        let ghost before_sorted = sorted@;
        let u = sorted.remove(0);
        proof {
            assert(users_view(before_sorted)[0] == before_sorted[0]@);
            assert(u@ == sv.skip(k as int)[0]);
            assert forall|j: int| 0 <= j < sorted@.len() implies #[trigger] users_view(sorted@)[j]
                == sv.skip(k + 1)[j] by {
                assert(sorted@[j] == before_sorted[j + 1]);
                assert(users_view(before_sorted)[j + 1] == sv.skip(k as int)[j + 1]);
            }
            assert(users_view(sorted@) =~= sv.skip(k + 1));
            assert(sv.take(k + 1).drop_last() =~= sv.take(k as int));
            assert(sv.take(k + 1).last() == sv[k as int]);
        }
        let keep = out.len() == 0 || out[out.len() - 1].id != u.id;
        if keep {
            let ghost before = users_view(out@);
            let ghost uv = u@;
            out.push(u);
            proof {
                assert(users_view(out@) =~= before.push(uv));
            }
        }
        k = k + 1;
    }
    proof {
        assert(sv.take(len as int) =~= sv);
    }
    out
}

/// `s` with every occurrence of `x` removed.
pub open spec fn without(s: Seq<i64>, x: i64) -> Seq<i64>
    decreases s.len(),
{
    if s.len() == 0 {
        s
    } else if s.last() == x {
        without(s.drop_last(), x)
    } else {
        without(s.drop_last(), x).push(s.last())
    }
}

/// Ticks `user_id` in (`checked`) or out of the chosen members: ticking in
/// adds the id at the end unless it is already chosen; ticking out removes
/// it wherever it stands.
pub fn toggle_member(members: &mut Vec<i64>, user_id: i64, checked: bool)
    ensures
        checked ==> final(members)@ == (if old(members)@.contains(user_id) {
            old(members)@
        } else {
            old(members)@.push(user_id)
        }),
        !checked ==> final(members)@ == without(old(members)@, user_id),
{
    let ghost s = members@;
    let mut found = false;
    let mut i: usize = 0;
    let mut kept: Vec<i64> = Vec::new();
    while i < members.len()
        invariant
            members@ == s,
            i <= s.len(),
            found == s.take(i as int).contains(user_id),
            kept@ == without(s.take(i as int), user_id),
        decreases s.len() - i,
    {
        let v = members[i];
        proof {
            assert(s.take(i + 1).drop_last() =~= s.take(i as int));
            assert(s.take(i + 1).last() == v);
            if s.take(i as int).contains(user_id) {
                let j = choose|j: int| 0 <= j < i && s.take(i as int)[j] == user_id;
                assert(s.take(i + 1)[j] == user_id);
            }
            if v == user_id {
                assert(s.take(i + 1)[i as int] == user_id);
            }
        }
        if v == user_id {
            found = true;
        } else {
            kept.push(v);
        }
        i = i + 1;
    }
    proof {
        assert(s.take(s.len() as int) =~= s);
    }
    if checked {
        if !found {
            members.push(user_id);
        }
    } else {
        *members = kept;
    }
}

/// Why a payment form was not sent.
#[derive(Clone, Copy, Debug, PartialEq, Eq, Structural)]
pub enum FormError {
    RecipientMissing,
    AmountMissing,
}

/// The message shown for `e`.
pub open spec fn form_error_message(e: FormError) -> Seq<char> {
    match e {
        FormError::RecipientMissing => "Please select a recipient"@,
        FormError::AmountMissing => "Please enter an amount"@,
    }
}

impl FormError {
    /// The message shown to the user.
    pub fn message(&self) -> (r: String)
        ensures
            r@ == form_error_message(*self),
    {
        let mut out = String::new();
        match self {
            FormError::RecipientMissing => push_str(&mut out, "Please select a recipient"),
            FormError::AmountMissing => push_str(&mut out, "Please enter an amount"),
        }
        proof {
            assert(out@ =~= form_error_message(*self));
        }
        out
    }
}

/// The checks a payment form makes before sending: a recipient (id 0 is
/// none) and an amount must be given; an empty description is sent as
/// none.
pub fn check_payment_form(recipient_id: i64, amount: &str, description: String) -> (r: Result<
    Option<String>,
    FormError,
>)
    ensures
        recipient_id == 0 ==> r == Err::<Option<String>, FormError>(FormError::RecipientMissing),
        recipient_id != 0 && amount@.len() == 0 ==> r == Err::<Option<String>, FormError>(
            FormError::AmountMissing,
        ),
        recipient_id != 0 && amount@.len() > 0 && description@.len() == 0 ==> r matches Ok(None),
        recipient_id != 0 && amount@.len() > 0 && description@.len() > 0 ==> (r matches Ok(Some(d))
            && d@ == description@),
{
    if recipient_id == 0 {
        return Err(FormError::RecipientMissing);
    }
    if amount.is_empty() {
        return Err(FormError::AmountMissing);
    }
    if description.as_str().is_empty() {
        Ok(None)
    } else {
        Ok(Some(description))
    }
}

} // verus!
