//! Characters, strings and the whitespace normalisation that every
//! user-supplied text field goes through.
use vstd::prelude::*;
use vstd::utf8::{encode_scalar, encode_utf8};

verus! {

/// `c` is a control code: Unicode general category `Cc`.
pub open spec fn spec_is_control(c: char) -> bool {
    (c as u32) <= 0x1f || (0x7f <= (c as u32) && (c as u32) <= 0x9f)
}

/// `c` has the Unicode `White_Space` property.
pub open spec fn spec_is_whitespace(c: char) -> bool {
    let u = c as u32;
    ||| (0x09 <= u && u <= 0x0d)
    ||| u == 0x20
    ||| u == 0x85
    ||| u == 0xa0
    ||| u == 0x1680
    ||| (0x2000 <= u && u <= 0x200a)
    ||| u == 0x2028
    ||| u == 0x2029
    ||| u == 0x202f
    ||| u == 0x205f
    ||| u == 0x3000
}

/// Whether `c` is a control code, as `char::is_control` decides it.
pub fn is_control(c: char) -> (r: bool)
    ensures
        r == spec_is_control(c),
{
    let u = c as u32;
    u <= 0x1f || (0x7f <= u && u <= 0x9f)
}

/// Whether `c` is whitespace, as `char::is_whitespace` decides it.
pub fn is_whitespace(c: char) -> (r: bool)
    ensures
        r == spec_is_whitespace(c),
{
    let u = c as u32;
    (0x09 <= u && u <= 0x0d) || u == 0x20 || u == 0x85 || u == 0xa0 || u == 0x1680 || (0x2000
        <= u && u <= 0x200a) || u == 0x2028 || u == 0x2029 || u == 0x202f || u == 0x205f || u
        == 0x3000
}

/// A control code that is not whitespace: sanitising removes it outright.
pub open spec fn is_stray_control(c: char) -> bool {
    spec_is_control(c) && !spec_is_whitespace(c)
}

/// `s` with its stray control codes removed.
pub open spec fn strip_controls(s: Seq<char>) -> Seq<char>
    decreases s.len(),
{
    if s.len() == 0 {
        s
    } else if is_stray_control(s.last()) {
        strip_controls(s.drop_last())
    } else {
        strip_controls(s.drop_last()).push(s.last())
    }
}

/// The words of `t` (its maximal runs of non-whitespace characters), in
/// order, separated by exactly one space.
pub open spec fn join_words(t: Seq<char>) -> Seq<char>
    decreases t.len(),
{
    if t.len() == 0 {
        Seq::empty()
    } else {
        let p = join_words(t.drop_last());
        let c = t.last();
        if spec_is_whitespace(c) {
            p
        } else if t.len() >= 2 && !spec_is_whitespace(t[t.len() - 2]) {
            p.push(c)
        } else if p.len() == 0 {
            seq![c]
        } else {
            p.push(' ').push(c)
        }
    }
}

/// What `sanitize_string` makes of `s`: stray control codes are dropped and
/// the words that remain are joined by single spaces.
pub open spec fn sanitized(s: Seq<char>) -> Seq<char> {
    join_words(strip_controls(s))
}

/// Number of bytes in the UTF-8 encoding of `s` (what `str::len` reports).
pub open spec fn utf8_len(s: Seq<char>) -> nat {
    encode_utf8(s).len()
}

/// A normalised text: no control codes, and its only whitespace is single
/// spaces that stand between two other characters.
pub open spec fn is_clean(r: Seq<char>) -> bool {
    &&& forall|i: int| 0 <= i < r.len() ==> !spec_is_control(#[trigger] r[i])
    &&& forall|i: int|
        0 <= i < r.len() && spec_is_whitespace(#[trigger] r[i]) ==> r[i] == ' ' && 0 < i && i + 1
            < r.len() && !spec_is_whitespace(r[i - 1]) && !spec_is_whitespace(r[i + 1])
}

/// Encoding one more character adds that character's encoding at the end.
pub proof fn lemma_utf8_push(s: Seq<char>, c: char)
    ensures
        encode_utf8(s.push(c)) == encode_utf8(s) + encode_scalar(c as u32),
        1 <= encode_scalar(c as u32).len() <= 4,
        (c as u32) < 0x80 ==> encode_scalar(c as u32).len() == 1,
    decreases s.len(),
{
    if s.len() == 0 {
        assert(s.push(c).drop_first() =~= s);
        assert(encode_utf8(s.push(c)) =~= encode_utf8(s) + encode_scalar(c as u32));
    } else {
        lemma_utf8_push(s.drop_first(), c);
        assert(s.push(c).drop_first() =~= s.drop_first().push(c));
        assert(encode_utf8(s.push(c)) =~= encode_utf8(s) + encode_scalar(c as u32));
    }
}

/// Dropping stray control codes never lengthens a text's encoding, and
/// leaves none behind.
proof fn lemma_strip_controls(s: Seq<char>)
    ensures
        utf8_len(strip_controls(s)) <= utf8_len(s),
        forall|i: int|
            0 <= i < strip_controls(s).len() ==> !is_stray_control(#[trigger] strip_controls(s)[i]),
    decreases s.len(),
{
    if s.len() > 0 {
        let u = s.drop_last();
        let c = s.last();
        lemma_strip_controls(u);
        lemma_utf8_push(u, c);
        assert(u.push(c) =~= s);
        if !is_stray_control(c) {
            lemma_utf8_push(strip_controls(u), c);
        }
    }
}

/// Joining the words of a text without stray control codes yields a clean
/// text whose encoding is no longer than the original's, counting one
/// byte for a pending separator.
proof fn lemma_join_words(t: Seq<char>)
    requires
        forall|i: int| 0 <= i < t.len() ==> !is_stray_control(#[trigger] t[i]),
    ensures
        is_clean(join_words(t)),
        utf8_len(join_words(t)) + (if join_words(t).len() > 0 && t.len() > 0 && spec_is_whitespace(
            t.last(),
        ) {
            1int
        } else {
            0int
        }) <= utf8_len(t),
        join_words(t).len() > 0 ==> t.len() > 0,
    decreases t.len(),
{
    if t.len() > 0 {
        let u = t.drop_last();
        let c = t.last();
        let p = join_words(u);
        assert forall|i: int| 0 <= i < u.len() implies !is_stray_control(#[trigger] u[i]) by {
            assert(u[i] == t[i]);
        }
        lemma_join_words(u);
        lemma_utf8_push(u, c);
        assert(u.push(c) =~= t);
        if spec_is_whitespace(c) {
        } else if t.len() >= 2 && !spec_is_whitespace(t[t.len() - 2]) {
            lemma_utf8_push(p, c);
            let r = p.push(c);
            assert forall|i: int|
                0 <= i < r.len() && spec_is_whitespace(#[trigger] r[i]) implies r[i] == ' ' && 0 < i
                && i + 1 < r.len() && !spec_is_whitespace(r[i - 1]) && !spec_is_whitespace(
                r[i + 1],
            ) by {
                assert(i < p.len());
                assert(r[i] == p[i]);
            }
            assert forall|i: int| 0 <= i < r.len() implies !spec_is_control(#[trigger] r[i]) by {
                if i < p.len() {
                    assert(r[i] == p[i]);
                }
            }
        } else if p.len() == 0 {
            lemma_utf8_push(Seq::<char>::empty(), c);
            assert(Seq::<char>::empty().push(c) =~= seq![c]);
        } else {
            lemma_utf8_push(p, ' ');
            lemma_utf8_push(p.push(' '), c);
            let r = p.push(' ').push(c);
            assert(!spec_is_whitespace(p.last()));
            assert forall|i: int|
                0 <= i < r.len() && spec_is_whitespace(#[trigger] r[i]) implies r[i] == ' ' && 0 < i
                && i + 1 < r.len() && !spec_is_whitespace(r[i - 1]) && !spec_is_whitespace(
                r[i + 1],
            ) by {
                if i < p.len() {
                    assert(r[i] == p[i]);
                    if i + 1 < p.len() {
                        assert(r[i + 1] == p[i + 1]);
                    }
                }
            }
            assert forall|i: int| 0 <= i < r.len() implies !spec_is_control(#[trigger] r[i]) by {
                if i < p.len() {
                    assert(r[i] == p[i]);
                }
            }
        }
    }
}

/// A clean text is left exactly as it is by `join_words`, and a text that
/// is clean but for one trailing space loses just that space.
proof fn lemma_join_words_fixed(t: Seq<char>)
    requires
        forall|i: int| 0 <= i < t.len() ==> !spec_is_control(#[trigger] t[i]),
        forall|i: int| 0 <= i < t.len() && spec_is_whitespace(#[trigger] t[i]) ==> t[i] == ' ',
        t.len() > 0 ==> t[0] != ' ',
        forall|i: int| 0 <= i && i + 1 < t.len() && #[trigger] t[i] == ' ' ==> t[i + 1] != ' ',
    ensures
        join_words(t) == (if t.len() > 0 && t.last() == ' ' {
            t.drop_last()
        } else {
            t
        }),
    decreases t.len(),
{
    if t.len() > 0 {
        let u = t.drop_last();
        let c = t.last();
        assert forall|i: int| 0 <= i && i + 1 < u.len() && #[trigger] u[i] == ' ' implies u[i + 1] != ' ' by {
            assert(u[i] == t[i] && u[i + 1] == t[i + 1]);
        }
        assert forall|i: int| 0 <= i < u.len() implies !spec_is_control(#[trigger] u[i]) by {
            assert(u[i] == t[i]);
        }
        assert forall|i: int| 0 <= i < u.len() && spec_is_whitespace(#[trigger] u[i]) implies u[i]
            == ' ' by {
            assert(u[i] == t[i]);
        }
        lemma_join_words_fixed(u);
        if u.len() > 0 {
            assert(u[0] == t[0]);
        }
        if spec_is_whitespace(c) {
            if u.len() > 0 {
                assert(t[u.len() - 1] == u.last());
            }
        } else if t.len() >= 2 && !spec_is_whitespace(t[t.len() - 2]) {
            assert(t[t.len() - 2] == u.last());
            assert(u.push(c) =~= t);
        } else if join_words(u).len() == 0 {
            assert(t =~= seq![c]);
        } else {
            assert(t[t.len() - 2] == u.last());
            assert(u.drop_last().push(' ').push(c) =~= t);
        }
    }
}

/// No stray control code survives in a clean text, so stripping leaves it.
proof fn lemma_strip_controls_fixed(t: Seq<char>)
    requires
        forall|i: int| 0 <= i < t.len() ==> !spec_is_control(#[trigger] t[i]),
    ensures
        strip_controls(t) == t,
    decreases t.len(),
{
    if t.len() > 0 {
        let u = t.drop_last();
        assert forall|i: int| 0 <= i < u.len() implies !spec_is_control(#[trigger] u[i]) by {
            assert(u[i] == t[i]);
        }
        lemma_strip_controls_fixed(u);
        assert(u.push(t.last()) =~= t);
    }
}

/// A sanitised text is clean and its encoding is no longer than the input's.
pub proof fn law_sanitized_is_clean(s: Seq<char>)
    ensures
        is_clean(sanitized(s)),
        utf8_len(sanitized(s)) <= utf8_len(s),
{
    lemma_strip_controls(s);
    lemma_join_words(strip_controls(s));
}

/// Sanitising is idempotent: a sanitised text is its own sanitisation.
pub proof fn law_sanitize_idempotent(s: Seq<char>)
    ensures
        sanitized(sanitized(s)) == sanitized(s),
{
    let r = sanitized(s);
    law_sanitized_is_clean(s);
    lemma_strip_controls_fixed(r);
    assert forall|i: int| 0 <= i && i + 1 < r.len() && #[trigger] r[i] == ' ' implies r[i + 1] != ' ' by {
        assert(spec_is_whitespace(r[i]));
    }
    if r.len() > 0 {
        if r[0] == ' ' {
            assert(spec_is_whitespace(r[0]));
        }
        if r.last() == ' ' {
            assert(spec_is_whitespace(r[r.len() - 1]));
        }
    }
    lemma_join_words_fixed(r);
}

/// Removing stray control codes works piece by piece.
proof fn lemma_strip_concat(x: Seq<char>, y: Seq<char>)
    ensures
        strip_controls(x + y) == strip_controls(x) + strip_controls(y),
    decreases y.len(),
{
    if y.len() == 0 {
        assert(x + y =~= x);
        assert(strip_controls(x) + strip_controls(y) =~= strip_controls(x));
    } else {
        lemma_strip_concat(x, y.drop_last());
        assert((x + y).drop_last() =~= x + y.drop_last());
        assert((x + y).last() == y.last());
        if !is_stray_control(y.last()) {
            assert(strip_controls(x) + strip_controls(y.drop_last()).push(y.last()) =~= (
            strip_controls(x) + strip_controls(y.drop_last())).push(y.last()));
        }
    }
}

/// A text ending in a character other than whitespace has words.
proof fn lemma_join_nonempty(t: Seq<char>)
    requires
        t.len() > 0,
        !spec_is_whitespace(t.last()),
    ensures
        join_words(t).len() > 0,
{
}

/// After a text with words that ends in whitespace, the words of what
/// follows come after one space (or nothing comes, when it has none).
proof fn lemma_join_after_space(a: Seq<char>, b: Seq<char>)
    requires
        a.len() > 0,
        spec_is_whitespace(a.last()),
        join_words(a).len() > 0,
    ensures
        join_words(a + b) == (if join_words(b).len() == 0 {
            join_words(a)
        } else {
            join_words(a) + seq![' '] + join_words(b)
        }),
    decreases b.len(),
{
    if b.len() == 0 {
        assert(a + b =~= a);
    } else {
        let b1 = b.drop_last();
        let c = b.last();
        let t = a + b;
        let t1 = a + b1;
        lemma_join_after_space(a, b1);
        assert(t.drop_last() =~= t1);
        assert(t.last() == c);
        assert(t[t.len() - 2] == (if b1.len() > 0 {
            b1.last()
        } else {
            a.last()
        }));
        if b1.len() > 0 {
            assert(b[b.len() - 2] == b1.last());
        }
        if spec_is_whitespace(c) {
        } else if t.len() >= 2 && !spec_is_whitespace(t[t.len() - 2]) {
            lemma_join_nonempty(b1);
            assert(join_words(a) + seq![' '] + join_words(b1).push(c) =~= (join_words(a) + seq![
                ' ',
            ] + join_words(b1)).push(c));
        } else {
            if b1.len() == 0 {
                assert(b1 =~= Seq::<char>::empty());
                assert(b.drop_last() =~= Seq::<char>::empty());
                assert(join_words(b) =~= seq![c]);
                assert(join_words(a).push(' ').push(c) =~= join_words(a) + seq![' '] + seq![c]);
            } else if join_words(b1).len() == 0 {
                assert(join_words(a).push(' ').push(c) =~= join_words(a) + seq![' '] + seq![c]);
            } else {
                assert((join_words(a) + seq![' '] + join_words(b1)).push(' ').push(c)
                    =~= join_words(a) + seq![' '] + join_words(b1).push(' ').push(c));
            }
        }
    }
}

/// Any whitespace character between two texts that have words, a tab or a
/// line break as much as a space, keeps their words apart: sanitising the
/// whole gives the first text's words, a single space, then the second's.
pub proof fn law_whitespace_separates_words(x: Seq<char>, w: char, y: Seq<char>)
    requires
        spec_is_whitespace(w),
        sanitized(x).len() > 0,
        sanitized(y).len() > 0,
    ensures
        sanitized(x + seq![w] + y) == sanitized(x) + seq![' '] + sanitized(y),
{
    lemma_strip_concat(x + seq![w], y);
    lemma_strip_concat(x, seq![w]);
    assert(seq![w].drop_last() =~= Seq::<char>::empty());
    assert(seq![w].last() == w);
    assert(!is_stray_control(w));
    assert(strip_controls(Seq::<char>::empty()) =~= Seq::<char>::empty());
    assert(strip_controls(seq![w]) == strip_controls(Seq::<char>::empty()).push(w));
    assert(strip_controls(seq![w]) =~= seq![w]);
    let a = strip_controls(x) + seq![w];
    assert(a.drop_last() =~= strip_controls(x));
    assert(a.last() == w);
    lemma_join_after_space(a, strip_controls(y));
}

/// The visible characters of `s`, in order: all but whitespace and
/// control codes.
pub open spec fn visible_chars(s: Seq<char>) -> Seq<char>
    decreases s.len(),
{
    if s.len() == 0 {
        s
    } else if spec_is_control(s.last()) || spec_is_whitespace(s.last()) {
        visible_chars(s.drop_last())
    } else {
        visible_chars(s.drop_last()).push(s.last())
    }
}

proof fn lemma_visible_strip(s: Seq<char>)
    ensures
        visible_chars(strip_controls(s)) == visible_chars(s),
    decreases s.len(),
{
    if s.len() > 0 {
        lemma_visible_strip(s.drop_last());
        if !is_stray_control(s.last()) {
            let p = strip_controls(s.drop_last());
            assert(p.push(s.last()).drop_last() =~= p);
        }
    }
}

proof fn lemma_visible_join(t: Seq<char>)
    ensures
        visible_chars(join_words(t)) == visible_chars(t),
    decreases t.len(),
{
    if t.len() > 0 {
        lemma_visible_join(t.drop_last());
        let p = join_words(t.drop_last());
        let c = t.last();
        assert(p.push(c).drop_last() =~= p);
        assert(p.push(' ').drop_last() =~= p);
        assert(p.push(' ').push(c).drop_last() =~= p.push(' '));
        assert(seq![c].drop_last() =~= Seq::<char>::empty());
        assert(seq![c].last() == c);
        assert(spec_is_whitespace(' '));
        assert(visible_chars(p.push(' ')) == visible_chars(p));
        if spec_is_whitespace(c) {
        } else if t.len() >= 2 && !spec_is_whitespace(t[t.len() - 2]) {
        } else if p.len() == 0 {
            assert(visible_chars(Seq::<char>::empty()) =~= Seq::<char>::empty());
            assert(visible_chars(p) =~= Seq::<char>::empty());
        } else {
        }
    }
}

/// Sanitising keeps every visible character, in order, and adds none: only
/// whitespace and control codes are dropped or changed.
pub proof fn law_sanitize_keeps_visible(s: Seq<char>)
    ensures
        visible_chars(sanitized(s)) == visible_chars(s),
{
    lemma_visible_join(strip_controls(s));
    lemma_visible_strip(s);
}

/// Appends `c` to `s` (`String::push`).
#[verifier::external_body]
pub(crate) fn push_char(s: &mut String, c: char)
    ensures
        final(s)@ == old(s)@.push(c),
{
    s.push(c);
}

/// Trims `input`, drops its control codes and collapses every run of
/// whitespace into a single space.
pub fn sanitize_string(input: &str) -> (r: String)
    ensures
        r@ == sanitized(input@),
        is_clean(r@),
        utf8_len(r@) <= utf8_len(input@),
{
    proof {
        law_sanitized_is_clean(input@);
    }
    let mut out = String::new();
    let mut prev_ws = true;
    let mut has_word = false;
    let ghost mut kept: Seq<char> = Seq::empty();
    for c in it: input.chars()
        invariant
            it.seq() == input@,
            kept == strip_controls(input@.take(it.index())),
            out@ == join_words(kept),
            prev_ws == (kept.len() == 0 || spec_is_whitespace(kept.last())),
            has_word == (out@.len() > 0),
    {
        proof {
            assert(input@.take(it.index() + 1).drop_last() =~= input@.take(it.index()));
        }
        let ctrl = is_control(c);
        let ws = is_whitespace(c);
        let ghost old_kept = kept;
        if ctrl && !ws {
        } else if ws {
            proof {
                kept = kept.push(c);
                assert(kept.drop_last() =~= old_kept);
            }
            prev_ws = true;
        } else {
            proof {
                kept = kept.push(c);
                assert(kept.drop_last() =~= old_kept);
            }
            if prev_ws && has_word {
                push_char(&mut out, ' ');
            }
            push_char(&mut out, c);
            prev_ws = false;
            has_word = true;
        }
    }
    proof {
        assert(input@.take(input@.len() as int) =~= input@);
    }
    out
}

/// Number of bytes `c` takes in UTF-8 (`char::len_utf8`).
pub(crate) fn char_utf8_width(c: char) -> (w: usize)
    ensures
        w == encode_scalar(c as u32).len(),
        1 <= w <= 4,
{
    proof {
        vstd::utf8::char_is_scalar(c);
    }
    let u = c as u32;
    if u < 0x80 {
        1
    } else if u < 0x800 {
        2
    } else if u < 0x10000 {
        3
    } else {
        4
    }
}

/// The UTF-8 length of `s` in bytes when it is at most `cap`, and `None`
/// when it is longer.
pub(crate) fn utf8_len_upto(s: &str, cap: usize) -> (r: Option<usize>)
    ensures
        match r {
            Some(n) => n == utf8_len(s@) && n <= cap,
            None => utf8_len(s@) > cap,
        },
{
    let mut n: usize = 0;
    for c in it: s.chars()
        invariant
            it.seq() == s@,
            n == utf8_len(s@.take(it.index())),
            n <= cap,
    {
        let w = char_utf8_width(c);
        proof {
            lemma_utf8_push(s@.take(it.index()), c);
            assert(s@.take(it.index()).push(c) =~= s@.take(it.index() + 1));
        }
        if w > cap || n > cap - w {
            proof {
                lemma_utf8_prefix_le(s@, it.index() + 1);
            }
            return None;
        }
        n = n + w;
    }
    proof {
        assert(s@.take(s@.len() as int) =~= s@);
    }
    Some(n)
}

/// A prefix never encodes to more bytes than the whole text.
pub proof fn lemma_utf8_prefix_le(s: Seq<char>, k: int)
    requires
        0 <= k <= s.len(),
    ensures
        utf8_len(s.take(k)) <= utf8_len(s),
    decreases s.len() - k,
{
    if k < s.len() {
        lemma_utf8_push(s.take(k), s[k]);
        assert(s.take(k).push(s[k]) =~= s.take(k + 1));
        lemma_utf8_prefix_le(s, k + 1);
    } else {
        assert(s.take(k) =~= s);
    }
}

/// The characters of `s`, in order.
pub(crate) fn chars_of(s: &str) -> (v: Vec<char>)
    ensures
        v@ == s@,
{
    let mut v: Vec<char> = Vec::new();
    for c in it: s.chars()
        invariant
            it.seq() == s@,
            v@ == s@.take(it.index()),
    {
        v.push(c);
        proof {
            assert(s@.take(it.index() + 1) =~= s@.take(it.index()).push(c));
        }
    }
    proof {
        assert(s@.take(s@.len() as int) =~= s@);
    }
    v
}

/// Appends all of `t` to `out`.
pub(crate) fn push_str(out: &mut String, t: &str)
    ensures
        final(out)@ == old(out)@ + t@,
{
    let ghost start = out@;
    for c in it: t.chars()
        invariant
            it.seq() == t@,
            out@ == start + t@.take(it.index()),
    {
        push_char(out, c);
        proof {
            assert(t@.take(it.index() + 1) =~= t@.take(it.index()).push(c));
        }
    }
    proof {
        assert(t@.take(t@.len() as int) =~= t@);
    }
}

/// The decimal digit character for `d < 10`.
pub open spec fn digit_char(d: nat) -> char {
    ((48 + d) as u32) as char
}

/// Decimal notation of `n`, without leading zeros.
pub open spec fn decimal(n: nat) -> Seq<char>
    decreases n,
{
    if n < 10 {
        seq![digit_char(n)]
    } else {
        decimal(n / 10).push(digit_char(n % 10))
    }
}

/// Appends the decimal notation of `n` to `out`.
pub(crate) fn push_decimal(out: &mut String, n: u64)
    ensures
        final(out)@ == old(out)@ + decimal(n as nat),
    decreases n,
{
    if n >= 10 {
        push_decimal(out, n / 10);
    }
    let d: u8 = (n % 10) as u8;
    let c: char = (48u8 + d) as char;
    push_char(out, c);
    proof {
        if n >= 10 {
            assert(old(out)@ + decimal((n / 10) as nat) + seq![c] =~= old(out)@ + decimal(
                n as nat,
            ));
        } else {
            assert(old(out)@.push(c) =~= old(out)@ + decimal(n as nat));
        }
    }
}

/// Whether `c` is a letter or a digit in Unicode's sense
/// (`char::is_alphanumeric`).
pub uninterp spec fn unicode_alphanumeric(c: char) -> bool;

/// Whether `c` has the Unicode `Alphabetic` property (`char::is_alphabetic`).
pub uninterp spec fn unicode_alphabetic(c: char) -> bool;

/// The Unicode lower-case mapping of a text (`str::to_lowercase`).
pub uninterp spec fn unicode_lowercase(s: Seq<char>) -> Seq<char>;

/// `c` is an ASCII character.
pub open spec fn is_ascii_char(c: char) -> bool {
    (c as u32) < 0x80
}

/// Every character of `s` is ASCII.
pub open spec fn is_ascii_text(s: Seq<char>) -> bool {
    forall|i: int| 0 <= i < s.len() ==> is_ascii_char(#[trigger] s[i])
}

/// A capital ASCII letter, `A`-`Z`.
pub open spec fn spec_is_ascii_upper(c: char) -> bool {
    0x41 <= (c as u32) && (c as u32) <= 0x5a
}

/// An ASCII letter, `A`-`Z` or `a`-`z`.
pub open spec fn spec_is_ascii_letter(c: char) -> bool {
    let u = c as u32;
    (0x41 <= u && u <= 0x5a) || (0x61 <= u && u <= 0x7a)
}

/// An ASCII letter or digit.
pub open spec fn spec_is_ascii_alnum(c: char) -> bool {
    let u = c as u32;
    (0x30 <= u && u <= 0x39) || spec_is_ascii_letter(c)
}

/// `c` with `A`-`Z` turned into `a`-`z`.
pub open spec fn ascii_lower_char(c: char) -> char {
    let u = c as u32;
    if 0x41 <= u && u <= 0x5a {
        ((u + 32) as u32) as char
    } else {
        c
    }
}

/// `s` with `A`-`Z` turned into `a`-`z`.
pub open spec fn ascii_lowercase(s: Seq<char>) -> Seq<char> {
    s.map_values(|c: char| ascii_lower_char(c))
}

/// Whether `c` is a letter or a digit: among ASCII characters exactly
/// `A`-`Z`, `a`-`z` and `0`-`9`; beyond ASCII as Unicode decides.
pub open spec fn is_alphanumeric_char(c: char) -> bool {
    if is_ascii_char(c) {
        spec_is_ascii_alnum(c)
    } else {
        unicode_alphanumeric(c)
    }
}

/// Whether `c` is a letter: among ASCII characters exactly `A`-`Z` and
/// `a`-`z`; beyond ASCII as Unicode decides.
pub open spec fn is_letter(c: char) -> bool {
    if is_ascii_char(c) {
        spec_is_ascii_letter(c)
    } else {
        unicode_alphabetic(c)
    }
}

/// The lower-case form of `s`: an ASCII text has `A`-`Z` turned into
/// `a`-`z` and is otherwise unchanged; other texts follow Unicode.
pub open spec fn lowercased(s: Seq<char>) -> Seq<char> {
    if is_ascii_text(s) {
        ascii_lowercase(s)
    } else {
        unicode_lowercase(s)
    }
}

/// `char::is_alphanumeric`. The contract names its result, which Unicode's
/// tables decide, and states the ASCII case: the letters and digits.
#[verifier::external_body]
pub(crate) fn char_is_alphanumeric(c: char) -> (r: bool)
    ensures
        r == unicode_alphanumeric(c),
        is_ascii_char(c) ==> r == spec_is_ascii_alnum(c),
{
    c.is_alphanumeric()
}

/// `char::is_alphabetic`. The contract names its result, which Unicode's
/// tables decide, and states the ASCII case: the letters.
#[verifier::external_body]
pub(crate) fn char_is_alphabetic(c: char) -> (r: bool)
    ensures
        r == unicode_alphabetic(c),
        is_ascii_char(c) ==> r == spec_is_ascii_letter(c),
{
    c.is_alphabetic()
}

/// `str::to_lowercase`. The contract names its result, which Unicode's
/// case tables decide, and states the ASCII case: `A`-`Z` become `a`-`z`
/// and every other character stays; and that the lower-case form holds no
/// capital `A`-`Z` (no character's lower-case mapping is one).
#[verifier::external_body]
pub(crate) fn to_lowercase(s: &str) -> (r: String)
    ensures
        r@ == unicode_lowercase(s@),
        is_ascii_text(s@) ==> r@ == ascii_lowercase(s@),
        forall|i: int| 0 <= i < r@.len() ==> !spec_is_ascii_upper(#[trigger] r@[i]),
{
    s.to_lowercase()
}

/// A text with neither control codes nor whitespace is its own
/// sanitisation.
pub proof fn lemma_sanitized_plain(t: Seq<char>)
    requires
        forall|i: int|
            0 <= i < t.len() ==> !spec_is_control(#[trigger] t[i]) && !spec_is_whitespace(t[i]),
    ensures
        sanitized(t) == t,
{
    lemma_strip_controls_fixed(t);
    if t.len() > 0 {
        assert(!spec_is_whitespace(t[0]));
        assert(!spec_is_whitespace(t[t.len() - 1]));
    }
    assert forall|i: int| 0 <= i && i + 1 < t.len() && #[trigger] t[i] == ' ' implies t[i + 1] != ' ' by {
        assert(!spec_is_whitespace(t[i]));
    }
    lemma_join_words_fixed(t);
}

/// The decimal notation of `n`, with a minus sign when it is negative.
pub open spec fn int_text(n: int) -> Seq<char> {
    if n < 0 {
        seq!['-'] + decimal((-n) as nat)
    } else {
        decimal(n as nat)
    }
}

/// Appends the decimal notation of `n` to `out`.
pub(crate) fn push_int(out: &mut String, n: i64)
    ensures
        final(out)@ == old(out)@ + int_text(n as int),
{
    if n < 0 {
        let m: u64 = if n == i64::MIN {
            0x8000_0000_0000_0000u64
        } else {
            (-n) as u64
        };
        let ghost start = out@;
        push_char(out, '-');
        push_decimal(out, m);
        proof {
            assert(start.push('-') + decimal(m as nat) =~= start + int_text(n as int));
        }
    } else {
        push_decimal(out, n as u64);
    }
}

/// `s` without its leading whitespace.
pub open spec fn trim_start_spec(s: Seq<char>) -> Seq<char>
    decreases s.len(),
{
    if s.len() > 0 && spec_is_whitespace(s[0]) {
        trim_start_spec(s.drop_first())
    } else {
        s
    }
}

/// `s` without its trailing whitespace.
pub open spec fn trim_end_spec(s: Seq<char>) -> Seq<char>
    decreases s.len(),
{
    if s.len() > 0 && spec_is_whitespace(s.last()) {
        trim_end_spec(s.drop_last())
    } else {
        s
    }
}

/// `s` without leading and trailing whitespace (what `str::trim` leaves).
pub open spec fn trimmed(s: Seq<char>) -> Seq<char> {
    trim_end_spec(trim_start_spec(s))
}

/// Copies the characters of `v` from `i` up to `j` into a new text.
fn text_of(v: &Vec<char>, i: usize, j: usize) -> (r: String)
    requires
        i <= j <= v.len(),
    ensures
        r@ == v@.subrange(i as int, j as int),
{
    let mut out = String::new();
    let mut k = i;
    while k < j
        invariant
            i <= k <= j,
            j <= v.len(),
            out@ == v@.subrange(i as int, k as int),
        decreases j - k,
    {
        push_char(&mut out, v[k]);
        proof {
            assert(v@.subrange(i as int, k + 1) =~= v@.subrange(i as int, k as int).push(v@[k as int]));
        }
        k = k + 1;
    }
    out
}

/// `s` with leading and trailing whitespace removed (`str::trim`).
pub fn trim_text(s: &str) -> (r: String)
    ensures
        r@ == trimmed(s@),
{
    let v = chars_of(s);
    let n = v.len();
    let mut i: usize = 0;
    proof {
        assert(s@.skip(0) =~= s@);
    }
    while i < n && is_whitespace(v[i])
        invariant
            v@ == s@,
            n == v@.len(),
            i <= n,
            trim_start_spec(s@) == trim_start_spec(s@.skip(i as int)),
        decreases n - i,
    {
        proof {
            assert(s@.skip(i as int).drop_first() =~= s@.skip(i + 1));
        }
        i = i + 1;
    }
    let ghost t = s@.skip(i as int);
    assert(trim_start_spec(s@) == t);
    let mut j: usize = n;
    proof {
        assert(t =~= s@.subrange(i as int, n as int));
    }
    while j > i && is_whitespace(v[j - 1])
        invariant
            v@ == s@,
            n == v@.len(),
            i <= j <= n,
            t == s@.subrange(i as int, n as int),
            trim_end_spec(t) == trim_end_spec(s@.subrange(i as int, j as int)),
        decreases j,
    {
        proof {
            assert(s@.subrange(i as int, j as int).drop_last() =~= s@.subrange(i as int, j - 1));
        }
        j = j - 1;
    }
    text_of(&v, i, j)
}

/// An ASCII digit, `0`-`9`.
pub open spec fn spec_is_ascii_digit(c: char) -> bool {
    0x30 <= (c as u32) && (c as u32) <= 0x39
}

/// The number written by the digits `d`.
pub open spec fn digits_value(d: Seq<char>) -> int
    decreases d.len(),
{
    if d.len() == 0 {
        0
    } else {
        10 * digits_value(d.drop_last()) + ((d.last() as u32) - 0x30)
    }
}

/// Every character of `d` is an ASCII digit.
pub open spec fn all_ascii_digits(d: Seq<char>) -> bool {
    forall|i: int| 0 <= i < d.len() ==> spec_is_ascii_digit(#[trigger] d[i])
}

/// `s` without a leading `+` or `-`.
pub open spec fn unsigned_part(s: Seq<char>) -> Seq<char> {
    if s.len() > 0 && (s[0] == '-' || s[0] == '+') {
        s.drop_first()
    } else {
        s
    }
}

/// What `i64::from_str` accepts: an optional `+` or `-` followed by one or
/// more ASCII digits, whose value fits in an `i64`.
pub open spec fn parsed_i64(s: Seq<char>) -> Option<i64> {
    let d = unsigned_part(s);
    if d.len() == 0 || !all_ascii_digits(d) {
        None
    } else {
        let v = if s[0] == '-' {
            -digits_value(d)
        } else {
            digits_value(d)
        };
        if i64::MIN <= v <= i64::MAX {
            Some(v as i64)
        } else {
            None
        }
    }
}

/// A longer run of digits is worth at least as much as its prefix.
proof fn lemma_digits_grow(d: Seq<char>, k: int)
    requires
        0 <= k <= d.len(),
        forall|i: int| 0 <= i < d.len() ==> spec_is_ascii_digit(#[trigger] d[i]),
    ensures
        0 <= digits_value(d.take(k)) <= digits_value(d),
    decreases d.len() - k,
{
    if k < d.len() {
        lemma_digits_grow(d, k + 1);
        assert(d.take(k + 1).drop_last() =~= d.take(k));
        assert(spec_is_ascii_digit(d[k]));
    } else {
        assert(d.take(k) =~= d);
        lemma_digits_nonneg(d);
    }
}

proof fn lemma_digits_nonneg(d: Seq<char>)
    requires
        forall|i: int| 0 <= i < d.len() ==> spec_is_ascii_digit(#[trigger] d[i]),
    ensures
        0 <= digits_value(d),
    decreases d.len(),
{
    if d.len() > 0 {
        assert(spec_is_ascii_digit(d[d.len() - 1]));
        assert forall|i: int| 0 <= i < d.drop_last().len() implies spec_is_ascii_digit(
            #[trigger] d.drop_last()[i],
        ) by {
            assert(d.drop_last()[i] == d[i]);
        }
        lemma_digits_nonneg(d.drop_last());
    }
}

/// Parses a whole text as an `i64`, as `i64::from_str` does.
pub fn parse_i64(s: &str) -> (r: Option<i64>)
    ensures
        r == parsed_i64(s@),
{
    let v = chars_of(s);
    let n = v.len();
    if n == 0 {
        return None;
    }
    let neg = v[0] == '-';
    let start: usize = if v[0] == '-' || v[0] == '+' {
        1
    } else {
        0
    };
    let ghost d = if start == 1 {
        s@.drop_first()
    } else {
        s@
    };
    proof {
        assert(d =~= s@.subrange(start as int, n as int));
    }
    if start == n {
        return None;
    }
    let bound: i128 = 0x8000_0000_0000_0000i128;
    let mut acc: i128 = 0;
    let mut k: usize = start;
    while k < n
        invariant
            v@ == s@,
            n == v@.len(),
            start <= k <= n,
            d == s@.subrange(start as int, n as int),
            n > 0,
            d == unsigned_part(s@),
            neg == (s@[0] == '-'),
            forall|i: int| 0 <= i < k - start ==> spec_is_ascii_digit(#[trigger] d[i]),
            acc == digits_value(d.take(k - start)),
            bound == 0x8000_0000_0000_0000i128,
            0 <= acc <= bound,
        decreases n - k,
    {
        let c = v[k];
        proof {
            vstd::utf8::char_is_scalar(c);
        }
        let u = c as u32;
        if u < 0x30 || u > 0x39 {
            proof {
                assert(d[k - start] == c);
                assert(!spec_is_ascii_digit(d[k - start]));
                assert(!all_ascii_digits(d));
            }
            return None;
        }
        proof {
            assert(d[k - start] == c);
            assert(d.take(k - start + 1).drop_last() =~= d.take(k - start));
            assert(d.take(k - start + 1).last() == c);
        }
        let next: i128 = acc * 10 + ((u - 0x30) as i128);
        if next > bound {
            proof {
                if all_ascii_digits(d) {
                    lemma_digits_grow(d, k - start + 1);
                }
            }
            return None;
        }
        acc = next;
        k = k + 1;
    }
    proof {
        assert(d.take(n - start) =~= d);
    }
    if neg {
        if acc == bound {
            Some(i64::MIN)
        } else {
            Some(-(acc as i64))
        }
    } else {
        if acc == bound {
            None
        } else {
            Some(acc as i64)
        }
    }
}

} // verus!
