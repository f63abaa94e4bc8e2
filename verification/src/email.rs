//! The e-mail address grammar accepted at registration:
//! `local@domain`, with a local part of letters, digits and the symbols
//! `.!#$%&'*+/=?^_`{|}~-`, and a domain of dot-separated labels of one to
//! sixty-three letters, digits and hyphens that neither start nor end with
//! a hyphen; the address is at most 254 bytes long and its last label has
//! at least two characters.
use vstd::prelude::*;

use crate::text::{
    chars_of, is_ascii_char, spec_is_ascii_alnum, spec_is_control, spec_is_whitespace, utf8_len,
    utf8_len_upto,
};

verus! {

/// A character allowed in the local part (before the `@`).
pub open spec fn spec_is_local_char(c: char) -> bool {
    ||| spec_is_ascii_alnum(c)
    ||| c == '.' || c == '!' || c == '#' || c == '$' || c == '%' || c == '&'
    ||| c == '\'' || c == '*' || c == '+' || c == '/' || c == '=' || c == '?'
    ||| c == '^' || c == '_' || c == '`' || c == '{' || c == '|' || c == '}'
    ||| c == '~' || c == '-'
}

/// A character allowed in the domain (after the `@`).
pub open spec fn spec_is_domain_char(c: char) -> bool {
    spec_is_ascii_alnum(c) || c == '-' || c == '.'
}

/// `d` is a non-empty dot-separated list of labels, each of 1 to 63
/// letters, digits and hyphens, beginning and ending with a letter or digit.
pub open spec fn is_domain(d: Seq<char>) -> bool {
    &&& d.len() > 0
    &&& forall|i: int| 0 <= i < d.len() ==> spec_is_domain_char(#[trigger] d[i])
    &&& spec_is_ascii_alnum(d[0])
    &&& spec_is_ascii_alnum(d.last())
    &&& forall|i: int|
        0 <= i < d.len() && #[trigger] d[i] == '.' ==> 0 < i && i + 1 < d.len()
            && spec_is_ascii_alnum(d[i - 1]) && spec_is_ascii_alnum(d[i + 1])
    &&& forall|i: int| 0 <= i && i + 64 <= d.len() ==> #[trigger] dot_within(d, i)
}

/// Some dot falls among the 64 characters of `d` starting at `i`.
pub open spec fn dot_within(d: Seq<char>, i: int) -> bool {
    exists|k: int| i <= k < i + 64 && #[trigger] d[k] == '.'
}

/// The last label of the domain `d` has at least two characters.
pub open spec fn top_label_long_enough(d: Seq<char>) -> bool {
    d.len() >= 2 && d[d.len() - 2] != '.'
}

/// `s` splits at its `@` (index `at`) into a valid local part and a valid
/// domain whose last label has at least two characters.
pub open spec fn address_split(s: Seq<char>, at: int) -> bool {
    &&& 0 < at < s.len()
    &&& s[at] == '@'
    &&& forall|i: int| 0 <= i < at ==> spec_is_local_char(#[trigger] s[i])
    &&& is_domain(s.subrange(at + 1, s.len() as int))
    &&& top_label_long_enough(s.subrange(at + 1, s.len() as int))
}

/// The addresses `is_valid_email` accepts.
pub open spec fn email_accepted(s: Seq<char>) -> bool {
    utf8_len(s) <= 254 && exists|at: int| address_split(s, at)
}

fn is_ascii_alnum(c: char) -> (r: bool)
    ensures
        r == spec_is_ascii_alnum(c),
{
    let u = c as u32;
    (0x30 <= u && u <= 0x39) || (0x41 <= u && u <= 0x5a) || (0x61 <= u && u <= 0x7a)
}

fn is_local_char(c: char) -> (r: bool)
    ensures
        r == spec_is_local_char(c),
{
    is_ascii_alnum(c) || c == '.' || c == '!' || c == '#' || c == '$' || c == '%' || c == '&'
        || c == '\'' || c == '*' || c == '+' || c == '/' || c == '=' || c == '?' || c == '^' || c
        == '_' || c == '`' || c == '{' || c == '|' || c == '}' || c == '~' || c == '-'
}

fn is_domain_char(c: char) -> (r: bool)
    ensures
        r == spec_is_domain_char(c),
{
    is_ascii_alnum(c) || c == '-' || c == '.'
}

/// Decides `is_domain` on a character vector.
fn check_domain(d: &Vec<char>) -> (r: bool)
    ensures
        r == is_domain(d@),
{
    let len = d.len();
    if len == 0 {
        return false;
    }
    if !is_ascii_alnum(d[0]) || !is_ascii_alnum(d[len - 1]) {
        return false;
    }
    let mut run: usize = 0;
    let mut i: usize = 0;
    while i < len
        invariant
            len == d@.len(),
            len > 0,
            spec_is_ascii_alnum(d@[0]),
            spec_is_ascii_alnum(d@[len - 1]),
            i <= len,
            run <= 63,
            run <= i,
            forall|k: int| i - run <= k < i ==> d@[k] != '.',
            i - run == 0 || d@[i - run - 1] == '.',
            forall|k: int| 0 <= k < i ==> spec_is_domain_char(#[trigger] d@[k]),
            forall|k: int|
                0 <= k < i && #[trigger] d@[k] == '.' ==> 0 < k && k + 1 < len
                    && spec_is_ascii_alnum(d@[k - 1]) && spec_is_ascii_alnum(d@[k + 1]),
            forall|j: int| 0 <= j && j + 64 <= i ==> #[trigger] dot_within(d@, j),
        decreases len - i,
    {
        let c = d[i];
        if !is_domain_char(c) {
            return false;
        }
        if c == '.' {
            if i == 0 || i + 1 >= len || !is_ascii_alnum(d[i - 1]) || !is_ascii_alnum(d[i + 1]) {
                return false;
            }
            run = 0;
        } else {
            if run >= 63 {
                proof {
                    let j = i - 63;
                    assert forall|k: int| j <= k < j + 64 implies d@[k] != '.' by {
                        if k < i {
                        }
                    }
                    assert(j + 64 <= len);
                    assert(!dot_within(d@, j));
                }
                return false;
            }
            run = run + 1;
        }
        proof {
            assert forall|j: int| 0 <= j && j + 64 <= i + 1 implies #[trigger] dot_within(d@, j) by {
                if j + 64 <= i {
                } else if c == '.' {
                    assert(d@[i as int] == '.');
                } else {
                    let k = i - run;
                    assert(d@[k] == '.');
                }
            }
        }
        i = i + 1;
    }
    true
}

/// Whether `email` is a well-formed address, at most 254 bytes long, whose
/// last domain label has at least two characters.
pub fn is_valid_email(email: &str) -> (r: bool)
    ensures
        r == email_accepted(email@),
{
    match utf8_len_upto(email, 254) {
        None => {
            return false;
        },
        Some(_) => {},
    }
    let v = chars_of(email);
    let len = v.len();
    let mut at: usize = 0;
    while at < len && v[at] != '@'
        invariant
            len == v@.len(),
            at <= len,
            forall|i: int| 0 <= i < at ==> v@[i] != '@',
        decreases len - at,
    {
        at = at + 1;
    }
    if at == len {
        proof {
            assert forall|a: int| !address_split(v@, a) by {
                if 0 < a < len {
                    assert(v@[a] != '@');
                }
            }
        }
        return false;
    }
    let mut i: usize = 0;
    while i < at
        invariant
            len == v@.len(),
            v@ == email@,
            at < len,
            i <= at,
            v@[at as int] == '@',
            forall|k: int| 0 <= k < at ==> v@[k] != '@',
            forall|k: int| 0 <= k < i ==> spec_is_local_char(#[trigger] v@[k]),
        decreases at - i,
    {
        if !is_local_char(v[i]) {
            proof {
                lemma_split_at_first(v@, at as int);
                assert(!spec_is_local_char(v@[i as int]));
                assert forall|a: int| !address_split(v@, a) by {
                    if address_split(v@, a) {
                        assert(a == at);
                    }
                }
            }
            return false;
        }
        i = i + 1;
    }
    let mut d: Vec<char> = Vec::new();
    let mut j: usize = at + 1;
    while j < len
        invariant
            len == v@.len(),
            at < len,
            at + 1 <= j <= len,
            d@ == v@.subrange(at + 1, j as int),
        decreases len - j,
    {
        d.push(v[j]);
        proof {
            assert(v@.subrange(at + 1, j + 1) =~= v@.subrange(at + 1, j as int).push(v@[j as int]));
        }
        j = j + 1;
    }
    let dom_ok = check_domain(&d);
    let dlen = d.len();
    let r = at > 0 && dom_ok && dlen >= 2 && d[dlen - 2] != '.';
    proof {
        lemma_split_at_first(v@, at as int);
        if r {
            assert(address_split(v@, at as int));
        }
    }
    r
}

/// A valid split can only be at the first `@`.
proof fn lemma_split_at_first(s: Seq<char>, at: int)
    requires
        0 <= at < s.len(),
        s[at] == '@',
        forall|i: int| 0 <= i < at ==> s[i] != '@',
    ensures
        forall|a: int| #[trigger] address_split(s, a) ==> a == at,
{
    assert forall|a: int| #[trigger] address_split(s, a) implies a == at by {
        if a < at {
            assert(s[a] == '@');
        } else if a > at {
            assert(spec_is_local_char(s[at]));
        }
    }
}

/// Every character of an accepted address is an ASCII character that is
/// neither whitespace nor a control code.
pub proof fn lemma_accepted_chars(s: Seq<char>)
    requires
        email_accepted(s),
    ensures
        forall|i: int|
            0 <= i < s.len() ==> is_ascii_char(#[trigger] s[i]) && !spec_is_control(s[i])
                && !spec_is_whitespace(s[i]),
{
    let at = choose|at: int| address_split(s, at);
    let d = s.subrange(at + 1, s.len() as int);
    assert forall|i: int| 0 <= i < s.len() implies is_ascii_char(#[trigger] s[i]) && !spec_is_control(
        s[i],
    ) && !spec_is_whitespace(s[i]) by {
        if i < at {
            assert(spec_is_local_char(s[i]));
        } else if i > at {
            assert(d[i - at - 1] == s[i]);
            assert(spec_is_domain_char(d[i - at - 1]));
        }
    }
}

} // verus!
