//! File names: those a recorder writes, and those this library gives to
//! finished tracks and reads again later.

use vstd::prelude::*;

use crate::calendar::{civil, civil_from_secs, civil_is_a_time, civil_undoes_second_number, cut_div, days_from_civil, days_in_month, days_of_the_epoch, march_number, second_number, valid_date, valid_time};
use crate::text::{all_digits, dec, digit_char, digit_value, from_chars, has_prefix, is_digit, lower, lower_all, number, pad2, push_dec_wide, push_pad2, starts_with, to_chars, to_lower, upper};

verus! {

/// Times written in names stay within these seconds of 1970.
pub const NAME_LIMIT: i64 = 400_000_000_000;

// ------------------------------------------------------------------ extensions

/// The place of the last dot of a name.
pub open spec fn last_dot(s: Seq<char>) -> int
    decreases s.len(),
{
    if s.len() == 0 {
        -1
    } else if s.last() == '.' {
        s.len() - 1
    } else {
        last_dot(s.drop_last())
    }
}

/// What stands behind the last dot of a file name; nothing if the only dot is
/// the first character, or there is none.
pub open spec fn extension_of(name: Seq<char>) -> Option<Seq<char>> {
    let i = last_dot(name);
    if i <= 0 || name == ".."@ {
        None
    } else {
        Some(name.skip(i + 1))
    }
}

/// Whether a file name is that of a WAV file: its extension says so, and it is
/// not one of the companion files that macOS writes.
pub open spec fn wav_name(name: Seq<char>) -> bool {
    !has_prefix(name, "._"@) && (extension_of(name) matches Some(e) && lower_all(e) == "wav"@)
}

/// The place of the last dot, if there is one.
fn find_last_dot(v: &Vec<char>) -> (r: Option<usize>)
    ensures
        match r {
            Some(i) => i < v.len() && last_dot(v@) == i,
            None => last_dot(v@) == -1,
        },
{
    let mut n: usize = v.len();
    assert(v@.take(n as int) =~= v@);
    while n > 0
        invariant
            n <= v.len(),
            last_dot(v@) == last_dot(v@.take(n as int)),
        decreases n,
    {
        let ghost t = v@.take(n as int);
        assert(t.last() == v@[n - 1]);
        assert(t.drop_last() =~= v@.take(n - 1));
        if v[n - 1] == '.' {
            return Some(n - 1);
        }
        n = n - 1;
    }
    None
}

/// The extension of a file name.
pub fn extension(name: &str) -> (r: Option<String>)
    ensures
        match r {
            Some(e) => extension_of(name@) == Some(e@),
            None => extension_of(name@) is None,
        },
{
    let v = to_chars(name);
    proof {
        reveal_strlit("..");
    }
    if v.len() == 2 && v[0] == '.' && v[1] == '.' {
        assert(name@ =~= ".."@);
        return None;
    }
    match find_last_dot(&v) {
        Some(i) => {
            if i == 0 {
                None
            } else {
                assert(v@.subrange(i + 1, v@.len() as int) =~= v@.skip(i + 1));
                Some(from_chars(&v, i + 1, v.len()))
            }
        },
        None => None,
    }
}

/// Whether a file name is that of a WAV file.
pub fn is_wav_name(name: &str) -> (r: bool)
    ensures
        r == wav_name(name@),
{
    if starts_with(name, "._") {
        return false;
    }
    match extension(name) {
        Some(e) => {
            let low = crate::text::to_lower_all(e.as_str());
            crate::text::same(low.as_str(), "wav")
        },
        None => false,
    }
}

// ------------------------------------------------------------------ numbers in names

/// How many digits a text begins with.
pub open spec fn leading_digits(s: Seq<char>) -> nat
    decreases s.len(),
{
    if s.len() == 0 || !is_digit(s[0]) {
        0
    } else {
        1 + leading_digits(s.drop_first())
    }
}

/// The number in `s` from `i` to `j`.
pub open spec fn num(s: Seq<char>, i: int, j: int) -> int {
    number(s.subrange(i, j))
}

/// A run of digits has a value below the power of ten of its length.
proof fn lemma_number_bound(s: Seq<char>)
    requires
        all_digits(s),
        s.len() <= 8,
    ensures
        0 <= number(s),
        s.len() <= 2 ==> number(s) <= 99,
        s.len() <= 4 ==> number(s) <= 9999,
        s.len() <= 6 ==> number(s) <= 999_999,
        s.len() <= 8 ==> number(s) <= 99_999_999,
{
    reveal_with_fuel(number, 9);
    assert forall|i: int| 0 <= i < s.len() implies 0 <= digit_value(#[trigger] s[i]) <= 9 by {
        assert(is_digit(s[i]));
    }
}

/// The number that the digits from `from` to `to` stand for, if they are digits.
fn read_number(v: &Vec<char>, from: usize, to: usize) -> (r: Option<i64>)
    requires
        from <= to <= v.len(),
        to - from <= 8,
    ensures
        match r {
            Some(n) => all_digits(v@.subrange(from as int, to as int)) && n == num(v@, from as int, to as int),
            None => !all_digits(v@.subrange(from as int, to as int)),
        },
{
    let mut n: i64 = 0;
    let mut i: usize = from;
    while i < to
        invariant
            from <= i <= to <= v.len(),
            to - from <= 8,
            all_digits(v@.subrange(from as int, i as int)),
            n == num(v@, from as int, i as int),
        decreases to - i,
    {
        let c = v[i];
        if c < '0' || c > '9' {
            assert(v@.subrange(from as int, to as int)[i - from] == c);
            return None;
        }
        let ghost s = v@.subrange(from as int, i as int);
        let ghost t = v@.subrange(from as int, i + 1);
        proof {
            lemma_number_bound(s);
            assert(t.drop_last() =~= s);
            assert forall|k: int| 0 <= k < t.len() implies is_digit(#[trigger] t[k]) by {
                if k < s.len() {
                    assert(t[k] == s[k]);
                }
            }
        }
        n = n * 10 + (c as u32 as i64 - 48);
        i = i + 1;
    }
    Some(n)
}

/// Whether date and time fields are in range. Every month is given 31 days.
pub open spec fn fields_in_range(mo: int, d: int, h: int, mi: int, s: int) -> bool {
    1 <= mo <= 12 && 1 <= d <= 31 && 0 <= h <= 23 && 0 <= mi <= 59 && 0 <= s <= 59
}

/// Seconds since 1970 of fields read from a name.
fn secs_of(y: i64, mo: i64, d: i64, h: i64, mi: i64, s: i64) -> (r: i64)
    requires
        0 <= y <= 9999,
        fields_in_range(mo as int, d as int, h as int, mi as int, s as int),
    ensures
        r == second_number(y as int, mo as int, d as int, h as int, mi as int, s as int),
        -NAME_LIMIT < r < NAME_LIMIT,
{
    let days: i64 = days_from_civil(y, mo, d);
    proof {
        reveal(march_number);
    }
    days * 86400 + h * 3600 + mi * 60 + s
}

// ------------------------------------------------------------------ recorder names

/// Sequence number and start of what follows `DJI_` in a recorder's file name:
/// up to six digits, `_`, eight digits of the date, `_`, six of the time. The
/// date is one of the calendar, in a year from 1970 to 2099.
pub open spec fn after_prefix(b: Seq<char>) -> Option<(int, int)> {
    let k = leading_digits(b) as int;
    let r = b.skip(k);
    if 1 <= k <= 6 && r.len() >= 16 && r[0] == '_' && r[9] == '_' && all_digits(r.subrange(1, 9)) && all_digits(r.subrange(10, 16)) && !(
    r.len() > 16 && is_digit(r[16])) && 1970 <= num(r, 1, 5) <= 2099 && valid_date(num(r, 1, 5), num(r, 5, 7), num(r, 7, 9)) && valid_time(
        num(r, 10, 12),
        num(r, 12, 14),
        num(r, 14, 16),
    ) {
        Some(
            (
                number(b.take(k)),
                second_number(num(r, 1, 5), num(r, 5, 7), num(r, 7, 9), num(r, 10, 12), num(r, 12, 14), num(r, 14, 16)),
            ),
        )
    } else {
        None
    }
}

/// Whether `DJI_` stands at place `i`, in capital or small letters.
pub open spec fn prefix_at(s: Seq<char>, i: int) -> bool {
    i + 4 <= s.len() && upper(s[i]) == 'D' && upper(s[i + 1]) == 'J' && upper(s[i + 2]) == 'I' && s[i + 3] == '_'
}

/// The first recorder stamp in a name, from place `i` on.
pub open spec fn dji_from(s: Seq<char>, i: int) -> Option<(int, int)>
    decreases s.len() - i,
{
    if i >= s.len() {
        None
    } else if prefix_at(s, i) && after_prefix(s.skip(i + 4)) is Some {
        after_prefix(s.skip(i + 4))
    } else {
        dji_from(s, i + 1)
    }
}

/// A pair of numbers, or nothing, as mathematical values.
pub open spec fn stamp_view(r: Option<(u32, i64)>) -> Option<(int, int)> {
    match r {
        Some((a, b)) => Some((a as int, b as int)),
        None => None,
    }
}

/// How many digits stand from `at` on.
fn count_digits(v: &Vec<char>, at: usize) -> (r: usize)
    requires
        at <= v.len(),
    ensures
        r == leading_digits(v@.skip(at as int)),
        at + r <= v.len(),
        all_digits(v@.subrange(at as int, at + r)),
{
    let mut k: usize = 0;
    while at + k < v.len() && '0' <= v[at + k] && v[at + k] <= '9'
        invariant
            at + k <= v.len(),
            all_digits(v@.subrange(at as int, at + k)),
            leading_digits(v@.skip(at as int)) == k + leading_digits(v@.skip(at + k)),
        decreases v.len() - at - k,
    {
        let ghost s = v@.skip(at + k);
        assert(s[0] == v@[at + k]);
        assert(s.drop_first() =~= v@.skip(at + k + 1));
        let ghost a = v@.subrange(at as int, at + k);
        let ghost b = v@.subrange(at as int, at + k + 1);
        assert forall|j: int| 0 <= j < b.len() implies is_digit(#[trigger] b[j]) by {
            if j < a.len() {
                assert(b[j] == a[j]);
            }
        }
        k = k + 1;
    }
    assert(at + k < v.len() ==> v@.skip(at + k)[0] == v@[at + k]);
    k
}

/// Two runs of digits with one after the other.
proof fn lemma_digits_split(s: Seq<char>, i: int, j: int, k: int)
    requires
        0 <= i <= j <= k <= s.len(),
    ensures
        all_digits(s.subrange(i, k)) == (all_digits(s.subrange(i, j)) && all_digits(s.subrange(j, k))),
{
    let a = s.subrange(i, j);
    let b = s.subrange(j, k);
    let c = s.subrange(i, k);
    if all_digits(c) {
        assert forall|x: int| 0 <= x < a.len() implies is_digit(#[trigger] a[x]) by {
            assert(a[x] == c[x]);
        }
        assert forall|x: int| 0 <= x < b.len() implies is_digit(#[trigger] b[x]) by {
            assert(b[x] == c[x + j - i]);
        }
    }
    if all_digits(a) && all_digits(b) {
        assert forall|x: int| 0 <= x < c.len() implies is_digit(#[trigger] c[x]) by {
            if x < j - i {
                assert(c[x] == a[x]);
            } else {
                assert(c[x] == b[x - (j - i)]);
            }
        }
    }
}

/// A range of a rest is a range of the whole.
proof fn lemma_skip_range(s: Seq<char>, at: int, i: int, j: int)
    requires
        0 <= at,
        0 <= i <= j,
        at + j <= s.len(),
    ensures
        s.skip(at).subrange(i, j) == s.subrange(at + i, at + j),
{
    assert(s.skip(at).subrange(i, j) =~= s.subrange(at + i, at + j));
}

/// Sequence number and start from what follows `DJI_` at place `at`.
pub fn parse_after_prefix(v: &Vec<char>, at: usize) -> (r: Option<(u32, i64)>)
    requires
        at <= v.len(),
    ensures
        stamp_view(r) == after_prefix(v@.skip(at as int)),
        r matches Some((_, t)) ==> -NAME_LIMIT < t < NAME_LIMIT,
{
    let ghost b = v@.skip(at as int);
    let k: usize = count_digits(v, at);
    if k == 0 || k > 6 {
        return None;
    }
    let ghost q = b.skip(k as int);
    assert(q =~= v@.skip(at + k));
    let p: usize = at + k;
    if v.len() - p < 16 || v[p] != '_' || v[p + 9] != '_' {
        return None;
    }
    assert(q[0] == v@[p as int] && q[9] == v@[p + 9]);
    if v.len() - p > 16 && '0' <= v[p + 16] && v[p + 16] <= '9' {
        assert(is_digit(q[16]));
        return None;
    }
    proof {
        lemma_skip_range(v@, p as int, 1, 9);
        lemma_skip_range(v@, p as int, 10, 16);
        lemma_skip_range(v@, p as int, 1, 5);
        lemma_skip_range(v@, p as int, 5, 7);
        lemma_skip_range(v@, p as int, 7, 9);
        lemma_skip_range(v@, p as int, 10, 12);
        lemma_skip_range(v@, p as int, 12, 14);
        lemma_skip_range(v@, p as int, 14, 16);
        lemma_digits_split(v@, p + 1, p + 5, p + 9);
        lemma_digits_split(v@, p + 5, p + 7, p + 9);
        lemma_digits_split(v@, p + 10, p + 12, p + 16);
        lemma_digits_split(v@, p + 12, p + 14, p + 16);
        assert(b.take(k as int) =~= v@.subrange(at as int, p as int));
        lemma_number_bound(v@.subrange(at as int, p as int));
    }
    let fields = (
        read_number(v, p + 1, p + 5),
        read_number(v, p + 5, p + 7),
        read_number(v, p + 7, p + 9),
        read_number(v, p + 10, p + 12),
        read_number(v, p + 12, p + 14),
        read_number(v, p + 14, p + 16),
    );
    match (read_number(v, at, p), fields) {
        (Some(seq), (Some(y), Some(mo), Some(d), Some(h), Some(mi), Some(s))) => {
            proof {
                lemma_number_bound(v@.subrange(p + 1, p + 5));
                lemma_number_bound(v@.subrange(p + 10, p + 12));
                lemma_number_bound(v@.subrange(p + 12, p + 14));
                lemma_number_bound(v@.subrange(p + 14, p + 16));
            }
            if y < 1970 || y > 2099 || mo < 1 || mo > 12 || d < 1 || d > days_in_month(y, mo) || h > 23 || mi > 59 || s > 59 {
                None
            } else {
                Some((seq as u32, secs_of(y, mo, d, h, mi, s)))
            }
        },
        _ => None,
    }
}

/// Finds `DJI_<seq>_<YYYYMMDD>_<HHMMSS>` anywhere in a file name, in capital or
/// small letters, so copies such as `dji_01_20260908_072908 (1).wav` count too.
/// Gives the sequence number and the start in seconds since 1970, local clock.
pub fn parse_dji_name(name: &str) -> (r: Option<(u32, i64)>)
    ensures
        stamp_view(r) == dji_from(name@, 0),
        r matches Some((_, t)) ==> -NAME_LIMIT < t < NAME_LIMIT,
{
    let v = to_chars(name);
    let mut i: usize = 0;
    while i < v.len()
        invariant
            v@ == name@,
            i <= v.len(),
            dji_from(name@, 0) == dji_from(name@, i as int),
        decreases v.len() - i,
    {
        if v.len() - i >= 4 && (v[i] == 'D' || v[i] == 'd') && (v[i + 1] == 'J' || v[i + 1] == 'j') && (v[i + 2] == 'I' || v[i + 2] == 'i') && v[i
            + 3] == '_' {
            assert(prefix_at(name@, i as int));
            let r = parse_after_prefix(&v, i + 4);
            if r.is_some() {
                return r;
            }
        }
        i = i + 1;
    }
    None
}

/// Whether two texts are the same but for the case of ASCII letters.
pub open spec fn alike(s: Seq<char>, t: Seq<char>) -> bool {
    s.len() == t.len() && forall|i: int| #![trigger s[i]] #![trigger t[i]] 0 <= i < s.len() ==> upper(s[i]) == upper(t[i])
}

/// Case does not change what is no letter.
proof fn lemma_alike_char(a: char, b: char)
    requires
        upper(a) == upper(b),
    ensures
        is_digit(a) == is_digit(b),
        is_digit(a) ==> a == b,
        (a == '_') == (b == '_'),
{
}

/// Alike texts have alike rests.
proof fn lemma_alike_skip(s: Seq<char>, t: Seq<char>, k: int)
    requires
        alike(s, t),
        0 <= k <= s.len(),
    ensures
        alike(s.skip(k), t.skip(k)),
{
    let (a, b) = (s.skip(k), t.skip(k));
    assert forall|i: int| 0 <= i < a.len() implies upper(#[trigger] a[i]) == upper(b[i]) by {
        assert(upper(s[i + k]) == upper(t[i + k]));
    }
    assert forall|i: int| 0 <= i < a.len() implies upper(a[i]) == upper(#[trigger] b[i]) by {
        assert(upper(s[i + k]) == upper(t[i + k]));
    }
}

/// Alike texts begin with equally many digits.
proof fn lemma_alike_leading(s: Seq<char>, t: Seq<char>)
    requires
        alike(s, t),
    ensures
        leading_digits(s) == leading_digits(t),
        leading_digits(s) <= s.len(),
        all_digits(s.take(leading_digits(s) as int)),
    decreases s.len(),
{
    if s.len() > 0 {
        lemma_alike_char(s[0], t[0]);
        if is_digit(s[0]) {
            lemma_alike_skip(s, t, 1);
            assert(s.drop_first() =~= s.skip(1) && t.drop_first() =~= t.skip(1));
            lemma_alike_leading(s.drop_first(), t.drop_first());
            let n = leading_digits(s) as int;
            let x = s.take(n);
            assert forall|i: int| 0 <= i < x.len() implies is_digit(#[trigger] x[i]) by {
                if i > 0 {
                    assert(x[i] == s.drop_first().take(n - 1)[i - 1]);
                }
            }
        }
    }
}

/// Digits of alike texts are the same digits.
proof fn lemma_alike_digits(s: Seq<char>, t: Seq<char>, i: int, j: int)
    requires
        alike(s, t),
        0 <= i <= j <= s.len(),
    ensures
        all_digits(s.subrange(i, j)) == all_digits(t.subrange(i, j)),
        all_digits(s.subrange(i, j)) ==> s.subrange(i, j) == t.subrange(i, j),
{
    let (a, b) = (s.subrange(i, j), t.subrange(i, j));
    assert forall|k: int| 0 <= k < a.len() implies is_digit(#[trigger] a[k]) == is_digit(b[k]) && (is_digit(a[k]) ==> a[k] == b[k]) by {
        lemma_alike_char(s[i + k], t[i + k]);
    }
    if all_digits(a) {
        assert(a =~= b);
    }
    if all_digits(b) {
        assert forall|k: int| 0 <= k < a.len() implies is_digit(#[trigger] a[k]) by {
            assert(is_digit(b[k]));
        }
    }
}

/// What follows `DJI_` reads the same in any case.
proof fn lemma_alike_after(s: Seq<char>, t: Seq<char>)
    requires
        alike(s, t),
    ensures
        after_prefix(s) == after_prefix(t),
{
    lemma_alike_leading(s, t);
    let k = leading_digits(s) as int;
    lemma_alike_digits(s, t, 0, k);
    assert(s.take(k) =~= s.subrange(0, k) && t.take(k) =~= t.subrange(0, k));
    lemma_alike_skip(s, t, k);
    let (a, b) = (s.skip(k), t.skip(k));
    if a.len() >= 16 {
        lemma_alike_char(a[0], b[0]);
        lemma_alike_char(a[9], b[9]);
        if a.len() > 16 {
            lemma_alike_char(a[16], b[16]);
        }
        lemma_alike_digits(a, b, 1, 9);
        lemma_alike_digits(a, b, 10, 16);
        lemma_digits_split(a, 1, 5, 9);
        lemma_digits_split(a, 5, 7, 9);
        lemma_digits_split(a, 10, 12, 16);
        lemma_digits_split(a, 12, 14, 16);
        lemma_alike_digits(a, b, 1, 5);
        lemma_alike_digits(a, b, 5, 7);
        lemma_alike_digits(a, b, 7, 9);
        lemma_alike_digits(a, b, 10, 12);
        lemma_alike_digits(a, b, 12, 14);
        lemma_alike_digits(a, b, 14, 16);
    }
}

/// A recorder's name reads the same in any case.
pub proof fn recorder_names_ignore_case(s: Seq<char>, t: Seq<char>, i: int)
    requires
        alike(s, t),
        0 <= i,
    ensures
        dji_from(s, i) == dji_from(t, i),
    decreases s.len() - i,
{
    if i < s.len() {
        recorder_names_ignore_case(s, t, i + 1);
        if i + 4 <= s.len() {
            assert(upper(s[i]) == upper(t[i]));
            assert(upper(s[i + 1]) == upper(t[i + 1]));
            assert(upper(s[i + 2]) == upper(t[i + 2]));
            lemma_alike_char(s[i + 3], t[i + 3]);
            lemma_alike_skip(s, t, i + 4);
            lemma_alike_after(s.skip(i + 4), t.skip(i + 4));
        }
    }
}

/// A text in small or in capital letters is alike.
pub proof fn letters_of_any_case_are_alike(s: Seq<char>)
    ensures
        alike(s, lower_all(s)),
        alike(s, s.map_values(|c: char| upper(c))),
{
}

/// A recorder's name is found behind anything in which no such name begins.
pub proof fn recorder_names_are_found_anywhere(p: Seq<char>, s: Seq<char>)
    requires
        forall|i: int| 0 <= i < p.len() ==> !(#[trigger] prefix_at(p + s, i) && after_prefix((p + s).skip(i + 4)) is Some),
    ensures
        dji_from(p + s, 0) == dji_from(s, 0),
{
    lemma_before_prefix(p, s, 0);
    lemma_behind_prefix(p, s, 0);
}

/// Nothing is found where no name begins.
proof fn lemma_before_prefix(p: Seq<char>, s: Seq<char>, i: int)
    requires
        forall|k: int| 0 <= k < p.len() ==> !(#[trigger] prefix_at(p + s, k) && after_prefix((p + s).skip(k + 4)) is Some),
        0 <= i <= p.len(),
    ensures
        dji_from(p + s, i) == dji_from(p + s, p.len() as int),
    decreases p.len() - i,
{
    if i < p.len() {
        lemma_before_prefix(p, s, i + 1);
        assert(!(prefix_at(p + s, i) && after_prefix((p + s).skip(i + 4)) is Some));
    }
}

/// A name is read the same behind another text.
proof fn lemma_behind_prefix(p: Seq<char>, s: Seq<char>, i: int)
    requires
        0 <= i <= s.len(),
    ensures
        dji_from(p + s, p.len() + i) == dji_from(s, i),
    decreases s.len() - i,
{
    let t = p + s;
    let n = p.len() as int;
    if i < s.len() {
        lemma_behind_prefix(p, s, i + 1);
        if i + 4 <= s.len() {
            assert(t[n + i] == s[i] && t[n + i + 1] == s[i + 1] && t[n + i + 2] == s[i + 2] && t[n + i + 3] == s[i + 3]);
            assert(t.skip(n + i + 4) =~= s.skip(i + 4));
        }
    }
}

/// What a recorder's name tells lies in range: a number of at most six digits,
/// and a time from the start of 1970 to the end of 2099.
pub proof fn recorder_stamps_lie_in_range(s: Seq<char>, i: int)
    requires
        0 <= i,
    ensures
        dji_from(s, i) matches Some((n, t)) ==> 0 <= n <= 999_999 && 0 <= t < 4_102_444_800,
    decreases s.len() - i,
{
    if i < s.len() {
        recorder_stamps_lie_in_range(s, i + 1);
        if prefix_at(s, i) && after_prefix(s.skip(i + 4)) is Some {
            let b = s.skip(i + 4);
            lemma_alike_leading(b, b);
            let k = leading_digits(b) as int;
            lemma_number_bound(b.take(k));
            let r = b.skip(k);
            days_of_the_epoch(num(r, 1, 5), num(r, 5, 7), num(r, 7, 9));
        }
    }
}

// ------------------------------------------------------------------ track names

/// Whether a name has the shape `yymmdd_SHHMMSS-EHHMMSS_DHHMMSS_<label>.wav`.
pub open spec fn own_shape(n: Seq<char>) -> bool {
    n.len() >= 36 && all_digits(n.subrange(0, 6)) && n[6] == '_' && n[7] == 'S' && all_digits(n.subrange(8, 14)) && n[14] == '-' && n[15] == 'E'
        && all_digits(n.subrange(16, 22)) && n[22] == '_' && n[23] == 'D' && all_digits(n.subrange(24, 30)) && n[30] == '_' && n[n.len() - 4]
        == '.' && lower(n[n.len() - 3]) == 'w' && lower(n[n.len() - 2]) == 'a' && lower(n[n.len() - 1]) == 'v'
}

/// Start and label that a track name stands for.
pub open spec fn track_of(n: Seq<char>) -> Option<(int, Seq<char>)> {
    if own_shape(n) && fields_in_range(num(n, 2, 4), num(n, 4, 6), num(n, 8, 10), num(n, 10, 12), num(n, 12, 14)) {
        Some(
            (
                second_number(2000 + num(n, 0, 2), num(n, 2, 4), num(n, 4, 6), num(n, 8, 10), num(n, 10, 12), num(n, 12, 14)),
                n.subrange(31, n.len() - 4),
            ),
        )
    } else {
        None
    }
}

/// Whether the digits from `from` to `to` are digits.
fn digits_between(v: &Vec<char>, from: usize, to: usize) -> (r: bool)
    requires
        from <= to <= v.len(),
        to - from <= 8,
    ensures
        r == all_digits(v@.subrange(from as int, to as int)),
{
    read_number(v, from, to).is_some()
}

/// Whether characters have the shape of a track name.
fn has_own_shape(v: &Vec<char>) -> (r: bool)
    ensures
        r == own_shape(v@),
{
    let n: usize = v.len();
    n >= 36 && v[n - 4] == '.' && to_lower(v[n - 3]) == 'w' && to_lower(v[n - 2]) == 'a' && to_lower(v[n - 1]) == 'v' && digits_between(v, 0, 6) && v[6]
        == '_' && v[7] == 'S' && digits_between(v, 8, 14) && v[14] == '-' && v[15] == 'E' && digits_between(v, 16, 22) && v[22] == '_' && v[23] == 'D'
        && digits_between(v, 24, 30) && v[30] == '_'
}

/// Whether a name is one this library gives: `yymmdd_SHHMMSS-EHHMMSS_DHHMMSS_<label>.wav`.
pub fn is_own_output(name: &str) -> (r: bool)
    ensures
        r == own_shape(name@),
{
    let v = to_chars(name);
    has_own_shape(&v)
}

/// Start (seconds since 1970) and label of a track, from its file name.
pub fn parse_track_name(name: &str) -> (r: Option<(i64, String)>)
    ensures
        match r {
            Some((t, label)) => track_of(name@) == Some((t as int, label@)) && -NAME_LIMIT < t < NAME_LIMIT,
            None => track_of(name@) is None,
        },
{
    let v = to_chars(name);
    if !has_own_shape(&v) {
        return None;
    }
    proof {
        lemma_digits_split(v@, 0, 2, 6);
        lemma_digits_split(v@, 2, 4, 6);
        lemma_digits_split(v@, 8, 10, 14);
        lemma_digits_split(v@, 10, 12, 14);
        lemma_number_bound(v@.subrange(0, 2));
        lemma_number_bound(v@.subrange(8, 10));
        lemma_number_bound(v@.subrange(10, 12));
        lemma_number_bound(v@.subrange(12, 14));
    }
    let date = (read_number(&v, 0, 2), read_number(&v, 2, 4), read_number(&v, 4, 6));
    let time = (read_number(&v, 8, 10), read_number(&v, 10, 12), read_number(&v, 12, 14));
    match (date, time) {
        ((Some(yy), Some(mo), Some(d)), (Some(h), Some(mi), Some(s))) => {
            if mo < 1 || mo > 12 || d < 1 || d > 31 || h > 23 || mi > 59 || s > 59 {
                None
            } else {
                Some((secs_of(2000 + yy, mo, d, h, mi, s), from_chars(&v, 31, v.len() - 4)))
            }
        },
        _ => None,
    }
}

/// Whether a label is that of a synchronised file.
pub open spec fn output_label(label: Seq<char>) -> bool {
    has_prefix(label, "stereo_L-"@) || has_prefix(label, "mono_"@)
}

/// Whether a label is that of a synchronised file.
pub fn is_output_label(label: &str) -> (r: bool)
    ensures
        r == output_label(label@),
{
    starts_with(label, "stereo_L-") || starts_with(label, "mono_")
}

// ------------------------------------------------------------------ naming

/// `yymmdd`
#[verifier::opaque]
pub open spec fn date6_text(t: int) -> Seq<char> {
    let (y, m, d, h, mi, s) = civil(t);
    pad2(y - 100 * cut_div(y, 100)) + pad2(m) + pad2(d)
}

/// `HHMMSS`
#[verifier::opaque]
pub open spec fn time6_text(t: int) -> Seq<char> {
    let (y, m, d, h, mi, s) = civil(t);
    pad2(h) + pad2(mi) + pad2(s)
}

/// `HHMMSS` of a number of seconds; hours may take more digits.
#[verifier::opaque]
pub open spec fn span6_text(dur: int) -> Seq<char> {
    pad2(dur / 3600) + pad2(dur % 3600 / 60) + pad2(dur % 60)
}

/// `yymmdd_SHHMMSS-EHHMMSS_DHHMMSS`: date, start, end and length.
pub open spec fn stamp_text(start: int, dur: int) -> Seq<char> {
    date6_text(start) + "_S"@ + time6_text(start) + "-E"@ + time6_text(start + dur) + "_D"@ + span6_text(dur)
}

/// The file name of a track: stamp and label.
pub open spec fn track_file(start: int, dur: int, label: Seq<char>) -> Seq<char> {
    stamp_text(start, dur) + "_"@ + label + ".wav"@
}

/// The label of a stereo file of two recorders.
pub open spec fn stereo_label(left: Seq<char>, right: Seq<char>) -> Seq<char> {
    "stereo_L-"@ + left + "_R-"@ + right
}

/// The label of a file of one recorder.
pub open spec fn mono_label(label: Seq<char>) -> Seq<char> {
    "mono_"@ + label
}

/// Appends `yymmdd`.
fn push_date6(r: &mut String, t: i64)
    ensures
        final(r)@ == old(r)@ + date6_text(t as int),
{
    proof {
        reveal(date6_text);
    }
    let (y, m, d, _, _, _) = civil_from_secs(t);
    push_pad2(r, y % 100);
    push_pad2(r, m);
    push_pad2(r, d);
}

/// Appends `HHMMSS`.
fn push_time6(r: &mut String, t: i64)
    ensures
        final(r)@ == old(r)@ + time6_text(t as int),
{
    proof {
        reveal(time6_text);
    }
    let (_, _, _, h, mi, s) = civil_from_secs(t);
    push_pad2(r, h);
    push_pad2(r, mi);
    push_pad2(r, s);
}

/// Date, start, end and length as they stand in a file name.
pub fn stamp(start: i64, dur: i64) -> (r: String)
    requires
        0 <= dur,
        start + dur <= i64::MAX,
    ensures
        r@ == stamp_text(start as int, dur as int),
{
    proof {
        reveal(span6_text);
    }
    let mut r = String::new();
    push_date6(&mut r, start);
    r.append("_S");
    push_time6(&mut r, start);
    r.append("-E");
    push_time6(&mut r, start + dur);
    r.append("_D");
    push_pad2(&mut r, dur / 3600);
    push_pad2(&mut r, dur % 3600 / 60);
    push_pad2(&mut r, dur % 60);
    assert(r@ =~= stamp_text(start as int, dur as int));
    r
}

/// The file name of a track.
pub fn track_file_name(start: i64, dur: i64, label: &str) -> (r: String)
    requires
        0 <= dur,
        start + dur <= i64::MAX,
    ensures
        r@ == track_file(start as int, dur as int, label@),
{
    let mut r = stamp(start, dur);
    r.append("_");
    r.append(label);
    r.append(".wav");
    r
}

/// The file name of a stereo file.
pub fn stereo_file_name(start: i64, dur: i64, left: &str, right: &str) -> (r: String)
    requires
        0 <= dur,
        start + dur <= i64::MAX,
    ensures
        r@ == track_file(start as int, dur as int, stereo_label(left@, right@)),
{
    let mut label = String::new();
    label.append("stereo_L-");
    label.append(left);
    label.append("_R-");
    label.append(right);
    assert(label@ =~= stereo_label(left@, right@));
    track_file_name(start, dur, label.as_str())
}

/// The file name of a file of one recorder.
pub fn mono_file_name(start: i64, dur: i64, label: &str) -> (r: String)
    requires
        0 <= dur,
        start + dur <= i64::MAX,
    ensures
        r@ == track_file(start as int, dur as int, mono_label(label@)),
{
    let mut full = String::new();
    full.append("mono_");
    full.append(label);
    assert(full@ =~= mono_label(label@));
    track_file_name(start, dur, full.as_str())
}

/// A number below a hundred takes two digits, which give it back.
proof fn lemma_pad2(x: int)
    requires
        0 <= x < 100,
    ensures
        pad2(x).len() == 2,
        all_digits(pad2(x)),
        number(pad2(x)) == x,
{
    reveal_with_fuel(number, 3);
    reveal_with_fuel(dec, 3);
    let p = pad2(x);
    assert(p.len() == 2);
    assert(p[0] == digit_char((x / 10) as nat));
    assert(p[1] == digit_char((x % 10) as nat));
    assert(p.drop_last() =~= seq![p[0]]);
    assert(p.drop_last().drop_last() =~= Seq::<char>::empty());
}

/// Three numbers below a hundred in a row.
proof fn lemma_six(a: int, b: int, c: int)
    requires
        0 <= a < 100,
        0 <= b < 100,
        0 <= c < 100,
    ensures
        ({
            let s = pad2(a) + pad2(b) + pad2(c);
            s.len() == 6 && all_digits(s) && num(s, 0, 2) == a && num(s, 2, 4) == b && num(s, 4, 6) == c
        }),
{
    lemma_pad2(a);
    lemma_pad2(b);
    lemma_pad2(c);
    let s = pad2(a) + pad2(b) + pad2(c);
    assert(s.subrange(0, 2) =~= pad2(a));
    assert(s.subrange(2, 4) =~= pad2(b));
    assert(s.subrange(4, 6) =~= pad2(c));
    assert(s.subrange(0, 6) =~= s);
    lemma_digits_split(s, 0, 4, 6);
    lemma_digits_split(s, 0, 2, 4);
}

/// The parts of a name of the usual shape.
proof fn lemma_name_parts(a: Seq<char>, b: Seq<char>, c: Seq<char>, d: Seq<char>, label: Seq<char>)
    requires
        a.len() == 6,
        b.len() == 6,
        c.len() == 6,
        d.len() == 6,
        label.len() > 0,
        all_digits(a),
        all_digits(b),
        all_digits(c),
        all_digits(d),
    ensures
        ({
            let n = (a + "_S"@ + b + "-E"@ + c + "_D"@ + d) + "_"@ + label + ".wav"@;
            &&& own_shape(n)
            &&& n.subrange(31, n.len() - 4) == label
            &&& n.subrange(0, 6) == a
            &&& n.subrange(8, 14) == b
            &&& n.subrange(16, 22) == c
            &&& n.subrange(24, 30) == d
        }),
{
    reveal_strlit("_S");
    reveal_strlit("-E");
    reveal_strlit("_D");
    reveal_strlit("_");
    reveal_strlit(".wav");
    let n = (a + "_S"@ + b + "-E"@ + c + "_D"@ + d) + "_"@ + label + ".wav"@;
    assert(n.len() == 35 + label.len());
    assert(n.subrange(0, 6) =~= a);
    assert(n.subrange(8, 14) =~= b);
    assert(n.subrange(16, 22) =~= c);
    assert(n.subrange(24, 30) =~= d);
    assert(n.subrange(31, n.len() - 4) =~= label);
}

/// The date of this century in six digits.
proof fn lemma_date6(t: int)
    requires
        2000 <= civil(t).0 <= 2099,
    ensures
        ({
            let s = date6_text(t);
            let (y, m, d, h, mi, sec) = civil(t);
            s.len() == 6 && all_digits(s) && 2000 + num(s, 0, 2) == y && num(s, 2, 4) == m && num(s, 4, 6) == d
        }),
{
    reveal(date6_text);
    civil_is_a_time(t);
    let (y, m, d, h, mi, sec) = civil(t);
    assert(y - 100 * cut_div(y, 100) == y - 2000);
    lemma_six(y - 2000, m, d);
}

/// The time of day in six digits.
proof fn lemma_time6(t: int)
    ensures
        ({
            let s = time6_text(t);
            let (y, m, d, h, mi, sec) = civil(t);
            s.len() == 6 && all_digits(s) && num(s, 0, 2) == h && num(s, 2, 4) == mi && num(s, 4, 6) == sec
        }),
{
    reveal(time6_text);
    civil_is_a_time(t);
    let (y, m, d, h, mi, sec) = civil(t);
    lemma_six(h, mi, sec);
}

/// The name given to a track of this century shorter than a hundred hours is
/// known again, and its start and label are read back from it.
pub proof fn track_name_reads_back(start: int, dur: int, label: Seq<char>)
    requires
        2000 <= civil(start).0 <= 2099,
        0 <= dur < 360_000,
        label.len() > 0,
    ensures
        own_shape(track_file(start, dur, label)),
        track_of(track_file(start, dur, label)) == Some((start, label)),
{
    lemma_date6(start);
    lemma_time6(start);
    lemma_time6(start + dur);
    assert(span6_text(dur).len() == 6 && all_digits(span6_text(dur))) by {
        reveal(span6_text);
        lemma_six(dur / 3600, dur % 3600 / 60, dur % 60);
    }
    civil_is_a_time(start);
    let a = date6_text(start);
    let b = time6_text(start);
    let n = track_file(start, dur, label);
    lemma_name_parts(a, b, time6_text(start + dur), span6_text(dur), label);
    lemma_nested_num(n, 0, a, 0, 2);
    lemma_nested_num(n, 0, a, 2, 4);
    lemma_nested_num(n, 0, a, 4, 6);
    lemma_nested_num(n, 8, b, 0, 2);
    lemma_nested_num(n, 8, b, 2, 4);
    lemma_nested_num(n, 8, b, 4, 6);
}

/// A number inside a part of a text.
proof fn lemma_nested_num(n: Seq<char>, at: int, p: Seq<char>, i: int, j: int)
    requires
        0 <= at,
        at + p.len() <= n.len(),
        n.subrange(at, at + p.len()) == p,
        0 <= i <= j <= p.len(),
    ensures
        num(n, at + i, at + j) == num(p, i, j),
{
    assert(n.subrange(at + i, at + j) =~= n.subrange(at, at + p.len()).subrange(i, j));
}

/// Synchronised files are told from tracks by their label.
pub proof fn synchronised_names_are_outputs(left: Seq<char>, right: Seq<char>)
    ensures
        output_label(stereo_label(left, right)),
        output_label(mono_label(left)),
{
    let a = stereo_label(left, right);
    let b = mono_label(left);
    assert(a.take("stereo_L-"@.len() as int) =~= "stereo_L-"@);
    assert(b.take("mono_"@.len() as int) =~= "mono_"@);
}

/// A name without the `.wav` it ends with, however often.
pub open spec fn stem(s: Seq<char>) -> Seq<char>
    decreases s.len(),
{
    if s.len() >= 4 && s.skip(s.len() - 4) == seq!['.', 'w', 'a', 'v'] {
        stem(s.take(s.len() - 4))
    } else {
        s
    }
}

/// A name without the `.wav` it ends with, however often.
pub fn stem_of(name: &str) -> (r: String)
    ensures
        r@ == stem(name@),
{
    let v = to_chars(name);
    let mut n: usize = v.len();
    assert(v@.take(n as int) =~= v@);
    while n >= 4 && v[n - 4] == '.' && v[n - 3] == 'w' && v[n - 2] == 'a' && v[n - 1] == 'v'
        invariant
            n <= v.len(),
            stem(v@) == stem(v@.take(n as int)),
        decreases n,
    {
        let ghost t = v@.take(n as int);
        assert(t.skip(n - 4) =~= seq!['.', 'w', 'a', 'v']);
        assert(t.take(n - 4) =~= v@.take(n - 4));
        n = n - 4;
    }
    proof {
        let t = v@.take(n as int);
        if n >= 4 && t.skip(n - 4) == seq!['.', 'w', 'a', 'v'] {
            let u = t.skip(n - 4);
            assert(u[0] == v@[n - 4] && u[1] == v@[n - 3] && u[2] == v@[n - 2] && u[3] == v@[n - 1]);
        }
        assert(v@.subrange(0, n as int) =~= t);
    }
    from_chars(&v, 0, n)
}

/// The `n`-th name of a file that others want as well.
pub open spec fn numbered(name: Seq<char>, n: nat) -> Seq<char> {
    stem(name) + "_"@ + dec(n) + ".wav"@
}

/// The stem of a name begins as the name does, up to the place behind its stamp.
proof fn lemma_stem_keeps_stamp(s: Seq<char>)
    requires
        s.len() >= 31,
        s[30] == '_',
    ensures
        31 <= stem(s).len() <= s.len(),
        forall|i: int| 0 <= i < stem(s).len() ==> #[trigger] stem(s)[i] == s[i],
    decreases s.len(),
{
    if s.skip(s.len() - 4) == seq!['.', 'w', 'a', 'v'] {
        let e = s.skip(s.len() - 4);
        if s.len() < 35 {
            assert(e[30 - (s.len() - 4)] == s[30]);
        }
        let t = s.take(s.len() - 4);
        lemma_stem_keeps_stamp(t);
        assert forall|i: int| 0 <= i < stem(s).len() implies #[trigger] stem(s)[i] == s[i] by {
            assert(stem(s) == stem(t));
            assert(stem(t)[i] == t[i]);
        }
    }
}

/// A result that had to be numbered is known again all the same, with its start.
pub proof fn numbered_names_are_known_again(name: Seq<char>, n: nat)
    requires
        track_of(name) is Some,
    ensures
        own_shape(numbered(name, n)),
        track_of(numbered(name, n)) matches Some((start, _)) && start == (track_of(name)->Some_0).0,
{
    reveal_strlit("_");
    reveal_strlit(".wav");
    lemma_stem_keeps_stamp(name);
    let t = stem(name);
    let r = numbered(name, n);
    let at = t.len() as int;
    assert(r.len() == at + 1 + dec(n).len() + 4);
    assert(dec(n).len() >= 1) by {
        reveal_with_fuel(dec, 1);
    }
    assert(r.take(31) =~= name.take(31)) by {
        assert forall|i: int| 0 <= i < 31 implies r[i] == name[i] by {
            assert(r[i] == t[i]);
        }
    }
    assert forall|i: int, j: int| 0 <= i <= j <= 31 implies #[trigger] r.subrange(i, j) == name.subrange(i, j) by {
        assert(r.subrange(i, j) =~= r.take(31).subrange(i, j));
        assert(name.subrange(i, j) =~= name.take(31).subrange(i, j));
    }
    assert forall|i: int| 0 <= i < 31 implies #[trigger] r[i] == name[i] by {
        assert(r.take(31)[i] == name.take(31)[i]);
    }
    assert(r[r.len() - 4] == '.' && r[r.len() - 3] == 'w' && r[r.len() - 2] == 'a' && r[r.len() - 1] == 'v');
}

/// The `n`-th name of a file that others want as well.
pub fn numbered_name(name: &str, n: u128) -> (r: String)
    ensures
        r@ == numbered(name@, n as nat),
{
    let mut r = stem_of(name);
    r.append("_");
    push_dec_wide(&mut r, n);
    r.append(".wav");
    assert(r@ =~= numbered(name@, n as nat));
    r
}

// ------------------------------------------------------------------ what names tell

/// The times in a name: hours, minutes and seconds of the start, of the end and
/// of the length, each in two digits behind its letter. Start and end are times
/// of day, the end as much later as the length says.
pub proof fn names_tell_start_end_and_length(start: int, dur: int, label: Seq<char>)
    requires
        2000 <= civil(start).0 <= 2099,
        0 <= dur < 360_000,
        label.len() > 0,
    ensures
        ({
            let n = track_file(start, dur, label);
            let from = num(n, 8, 10) * 3600 + num(n, 10, 12) * 60 + num(n, 12, 14);
            let to = num(n, 16, 18) * 3600 + num(n, 18, 20) * 60 + num(n, 20, 22);
            let len = num(n, 24, 26) * 3600 + num(n, 26, 28) * 60 + num(n, 28, 30);
            &&& from == start % 86_400
            &&& to == (start + dur) % 86_400
            &&& len == dur
            &&& num(n, 26, 28) < 60 && num(n, 28, 30) < 60 && num(n, 18, 20) < 60 && num(n, 20, 22) < 60
            &&& n.subrange(31, n.len() - 4) == label
            &&& n.skip(n.len() - 4) == seq!['.', 'w', 'a', 'v']
        }),
{
    let n = track_file(start, dur, label);
    lemma_track_parts(start, dur, label);
    assert(num(n, 8, 10) * 3600 + num(n, 10, 12) * 60 + num(n, 12, 14) == start % 86_400) by {
        lemma_clock_at(n, 8, start);
    }
    assert(num(n, 16, 18) * 3600 + num(n, 18, 20) * 60 + num(n, 20, 22) == (start + dur) % 86_400 && num(n, 18, 20) < 60 && num(n, 20, 22) < 60) by {
        lemma_clock_at(n, 16, start + dur);
    }
    assert(num(n, 24, 26) * 3600 + num(n, 26, 28) * 60 + num(n, 28, 30) == dur && num(n, 26, 28) < 60 && num(n, 28, 30) < 60) by {
        lemma_span_at(n, 24, dur);
    }
    lemma_ends_in_wav(n, stamp_text(start, dur) + "_"@ + label);
}

/// The parts of a track's name.
proof fn lemma_track_parts(start: int, dur: int, label: Seq<char>)
    requires
        2000 <= civil(start).0 <= 2099,
        0 <= dur < 360_000,
        label.len() > 0,
    ensures
        ({
            let n = track_file(start, dur, label);
            &&& n.len() >= 36
            &&& n.subrange(8, 14) == time6_text(start)
            &&& n.subrange(16, 22) == time6_text(start + dur)
            &&& n.subrange(24, 30) == span6_text(dur)
            &&& n.subrange(31, n.len() - 4) == label
        }),
{
    lemma_date6(start);
    lemma_time6(start);
    lemma_time6(start + dur);
    assert(span6_text(dur).len() == 6 && all_digits(span6_text(dur))) by {
        reveal(span6_text);
        lemma_six(dur / 3600, dur % 3600 / 60, dur % 60);
    }
    lemma_name_parts(date6_text(start), time6_text(start), time6_text(start + dur), span6_text(dur), label);
}

/// A time of day inside a name.
proof fn lemma_clock_at(n: Seq<char>, at: int, t: int)
    requires
        0 <= at,
        at + 6 <= n.len(),
        n.subrange(at, at + 6) == time6_text(t),
    ensures
        num(n, at, at + 2) * 3600 + num(n, at + 2, at + 4) * 60 + num(n, at + 4, at + 6) == t % 86_400,
        num(n, at + 2, at + 4) < 60,
        num(n, at + 4, at + 6) < 60,
{
    let b = time6_text(t);
    lemma_time6(t);
    lemma_nested_num(n, at, b, 0, 2);
    lemma_nested_num(n, at, b, 2, 4);
    lemma_nested_num(n, at, b, 4, 6);
    lemma_clock(t);
}

/// A length inside a name.
proof fn lemma_span_at(n: Seq<char>, at: int, dur: int)
    requires
        0 <= dur < 360_000,
        0 <= at,
        at + 6 <= n.len(),
        n.subrange(at, at + 6) == span6_text(dur),
    ensures
        num(n, at, at + 2) * 3600 + num(n, at + 2, at + 4) * 60 + num(n, at + 4, at + 6) == dur,
        num(n, at + 2, at + 4) < 60,
        num(n, at + 4, at + 6) < 60,
{
    let b = span6_text(dur);
    reveal(span6_text);
    lemma_six(dur / 3600, dur % 3600 / 60, dur % 60);
    lemma_nested_num(n, at, b, 0, 2);
    lemma_nested_num(n, at, b, 2, 4);
    lemma_nested_num(n, at, b, 4, 6);
}

/// Hours, minutes and seconds are the time of day.
proof fn lemma_clock(t: int)
    ensures
        civil(t).3 * 3600 + civil(t).4 * 60 + civil(t).5 == t % 86_400,
        0 <= civil(t).4 < 60,
        0 <= civil(t).5 < 60,
{
}

/// What `.wav` is put behind ends with it.
proof fn lemma_ends_in_wav(n: Seq<char>, front: Seq<char>)
    requires
        n == front + ".wav"@,
    ensures
        n.skip(n.len() - 4) == seq!['.', 'w', 'a', 'v'],
{
    reveal_strlit(".wav");
    assert(n.skip(n.len() - 4) =~= seq!['.', 'w', 'a', 'v']);
}

/// Digits before something else are counted.
proof fn lemma_leading(a: Seq<char>, b: Seq<char>)
    requires
        all_digits(a),
        b.len() > 0,
        !is_digit(b[0]),
    ensures
        leading_digits(a + b) == a.len(),
    decreases a.len(),
{
    if a.len() > 0 {
        assert((a + b)[0] == a[0]);
        assert(is_digit(a[0]));
        let c = a.drop_first();
        assert((a + b).drop_first() =~= c + b);
        assert forall|i: int| 0 <= i < c.len() implies is_digit(#[trigger] c[i]) by {
            assert(c[i] == a[i + 1]);
        }
        lemma_leading(c, b);
    } else {
        assert(a + b =~= b);
    }
}

/// Decimal digits are digits, and as many as there are.
pub proof fn lemma_dec_digits(n: nat)
    ensures
        all_digits(dec(n)),
        dec(n).len() >= 1,
        number(dec(n)) == n,
        n < 10 ==> dec(n).len() == 1,
        n < 100 ==> dec(n).len() <= 2,
        n < 1000 ==> dec(n).len() <= 3,
        n < 10_000 ==> dec(n).len() <= 4,
        n < 100_000 ==> dec(n).len() <= 5,
        n < 1_000_000 ==> dec(n).len() <= 6,
    decreases n,
{
    let d = dec(n);
    if n >= 10 {
        lemma_dec_digits(n / 10);
        assert(d.drop_last() =~= dec(n / 10));
        assert(d.last() == digit_char(n % 10));
        assert forall|i: int| 0 <= i < d.len() implies is_digit(#[trigger] d[i]) by {
            if i < d.len() - 1 {
                assert(d[i] == dec(n / 10)[i]);
            }
        }
    } else {
        assert(d.drop_last() =~= Seq::<char>::empty());
        assert(number(Seq::<char>::empty()) == 0);
    }
}

/// A year in four digits.
proof fn lemma_four(y: int)
    requires
        1970 <= y <= 2099,
    ensures
        ({
            let s = pad2(y / 100) + pad2(y % 100);
            s.len() == 4 && all_digits(s) && number(s) == y
        }),
{
    lemma_pad2(y / 100);
    lemma_pad2(y % 100);
    let a = pad2(y / 100);
    let b = pad2(y % 100);
    let s = a + b;
    assert(s.drop_last() =~= a.push(b[0]));
    assert(a.push(b[0]).drop_last() =~= a);
    assert(b.drop_last() =~= seq![b[0]]);
    assert(seq![b[0]].drop_last() =~= Seq::<char>::empty());
    reveal_with_fuel(number, 3);
    assert(s.last() == b[1] && b.last() == b[1]);
}

/// The parts of what follows the number in a recorder's name.
proof fn lemma_stamp_parts(year: Seq<char>, mo: Seq<char>, d: Seq<char>, h: Seq<char>, mi: Seq<char>, s: Seq<char>, tail: Seq<char>)
    requires
        year.len() == 4 && all_digits(year),
        mo.len() == 2 && all_digits(mo),
        d.len() == 2 && all_digits(d),
        h.len() == 2 && all_digits(h),
        mi.len() == 2 && all_digits(mi),
        s.len() == 2 && all_digits(s),
    ensures
        ({
            let r = seq!['_'] + (year + mo + d) + seq!['_'] + h + mi + s + tail;
            &&& r.len() == 16 + tail.len() && r[0] == '_' && r[9] == '_'
            &&& all_digits(r.subrange(1, 9)) && all_digits(r.subrange(10, 16))
            &&& r.subrange(1, 5) == year && r.subrange(5, 7) == mo && r.subrange(7, 9) == d
            &&& r.subrange(10, 12) == h && r.subrange(12, 14) == mi && r.subrange(14, 16) == s
            &&& tail.len() > 0 ==> r[16] == tail[0]
        }),
{
    let r = seq!['_'] + (year + mo + d) + seq!['_'] + h + mi + s + tail;
    assert(r.subrange(1, 5) =~= year);
    assert(r.subrange(5, 7) =~= mo);
    assert(r.subrange(7, 9) =~= d);
    assert(r.subrange(10, 12) =~= h);
    assert(r.subrange(12, 14) =~= mi);
    assert(r.subrange(14, 16) =~= s);
    lemma_digits_split(r, 1, 5, 9);
    lemma_digits_split(r, 5, 7, 9);
    lemma_digits_split(r, 10, 12, 16);
    lemma_digits_split(r, 12, 14, 16);
}

/// A recorder's name of a number and a time of the calendar from 1970 to 2099 is
/// read as that number and the seconds of that time, whatever follows that is no
/// digit.
pub proof fn recorder_names_read_back(n: nat, y: int, mo: int, d: int, h: int, mi: int, s: int, tail: Seq<char>)
    requires
        n <= 999_999,
        1970 <= y <= 2099,
        valid_date(y, mo, d),
        valid_time(h, mi, s),
        tail.len() == 0 || !is_digit(tail[0]),
    ensures
        ({
            let date = pad2(y / 100) + pad2(y % 100) + pad2(mo) + pad2(d);
            let name = seq!['D', 'J', 'I', '_'] + dec(n) + seq!['_'] + date + seq!['_'] + pad2(h) + pad2(mi) + pad2(s) + tail;
            dji_from(name, 0) == Some((n as int, second_number(y, mo, d, h, mi, s)))
        }),
{
    lemma_dec_digits(n);
    lemma_four(y);
    lemma_pad2(mo);
    lemma_pad2(d);
    lemma_pad2(h);
    lemma_pad2(mi);
    lemma_pad2(s);
    let year = pad2(y / 100) + pad2(y % 100);
    let date = pad2(y / 100) + pad2(y % 100) + pad2(mo) + pad2(d);
    let rest = seq!['_'] + date + seq!['_'] + pad2(h) + pad2(mi) + pad2(s) + tail;
    let name = seq!['D', 'J', 'I', '_'] + dec(n) + seq!['_'] + date + seq!['_'] + pad2(h) + pad2(mi) + pad2(s) + tail;
    let b = name.skip(4);
    assert(b =~= dec(n) + rest);
    lemma_leading(dec(n), rest);
    let k = dec(n).len() as int;
    let r = b.skip(k);
    assert(r =~= rest);
    assert(b.take(k) =~= dec(n));
    lemma_stamp_parts(year, pad2(mo), pad2(d), pad2(h), pad2(mi), pad2(s), tail);
    if r.len() > 16 {
        assert(r[16] == tail[0]);
    }
    assert(r[0] == '_' && r[9] == '_');
    assert(name[0] == 'D' && name[1] == 'J' && name[2] == 'I' && name[3] == '_');
    assert(prefix_at(name, 0));
    assert(after_prefix(b) is Some);
}

/// A name that holds no `DJI_`, in letters of any case, is none of a recorder.
pub proof fn other_names_are_not_a_recorders(s: Seq<char>, i: int)
    requires
        0 <= i,
        forall|k: int|
            0 <= k <= s.len() - 4 ==> !(((#[trigger] s[k]) == 'D' || s[k] == 'd') && (s[k + 1] == 'J' || s[k + 1] == 'j') && (s[k + 2] == 'I' || s[k + 2] == 'i') && s[k
                + 3] == '_'),
    ensures
        dji_from(s, i) is None,
    decreases s.len() - i,
{
    if i < s.len() {
        other_names_are_not_a_recorders(s, i + 1);
        if i + 4 <= s.len() {
            let c = s[i];
            assert(!((c == 'D' || c == 'd') && (s[i + 1] == 'J' || s[i + 1] == 'j') && (s[i + 2] == 'I' || s[i + 2] == 'i') && s[i + 3] == '_'));
        }
    }
}

/// A name keeps everything before the `.wav` it ends with, and numbering it puts
/// the number behind that.
pub proof fn numbers_stand_before_the_extension(s: Seq<char>, n: nat)
    ensures
        stem(s + seq!['.', 'w', 'a', 'v']) == stem(s),
        s.len() < 4 || s.skip(s.len() - 4) != seq!['.', 'w', 'a', 'v'] ==> stem(s) == s && numbered(s + seq!['.', 'w', 'a', 'v'], n) == s + seq!['_'] + dec(n) + seq![
            '.',
            'w',
            'a',
            'v',
        ],
{
    let t = s + seq!['.', 'w', 'a', 'v'];
    assert(t.skip(t.len() - 4) =~= seq!['.', 'w', 'a', 'v']);
    assert(t.take(t.len() - 4) =~= s);
    reveal_strlit("_");
    reveal_strlit(".wav");
    assert("_"@ =~= seq!['_']);
    assert(".wav"@ =~= seq!['.', 'w', 'a', 'v']);
}

/// What stands behind the last dot is the extension; a name without a dot, or
/// with one only in front, has none.
pub proof fn extensions_stand_behind_the_last_dot(stem: Seq<char>, ext: Seq<char>)
    requires
        forall|i: int| 0 <= i < ext.len() ==> #[trigger] ext[i] != '.',
    ensures
        stem.len() > 0 && ext.len() > 0 ==> extension_of(stem + seq!['.'] + ext) == Some(ext),
        last_dot(stem + seq!['.'] + ext) == stem.len(),
        extension_of(ext) is None,
        extension_of(seq!['.'] + ext) is None,
        stem.len() > 0 && lower_all(ext) == "wav"@ ==> (wav_name(stem + seq!['.'] + ext) <==> !has_prefix(stem + seq!['.'] + ext, "._"@)),
        lower_all(ext) != "wav"@ && ext.len() > 0 ==> !wav_name(stem + seq!['.'] + ext),
{
    lemma_dot_found(stem, ext);
    lemma_dot_found(Seq::empty(), ext);
    assert(Seq::<char>::empty() + seq!['.'] + ext =~= seq!['.'] + ext);
    lemma_no_dot(ext);
    let n = stem + seq!['.'] + ext;
    assert(n.skip(stem.len() as int + 1) =~= ext);
    reveal_strlit("..");
    reveal_strlit("wav");
    if ext.len() > 0 {
        assert(n.last() == ext.last());
        assert(n != ".."@) by {
            assert(".."@.last() == '.');
        }
    }
    if lower_all(ext) == "wav"@ {
        assert(lower_all(ext).len() == 3);
    }
}

proof fn lemma_dot_found(stem: Seq<char>, ext: Seq<char>)
    requires
        forall|i: int| 0 <= i < ext.len() ==> #[trigger] ext[i] != '.',
    ensures
        last_dot(stem + seq!['.'] + ext) == stem.len(),
    decreases ext.len(),
{
    let n = stem + seq!['.'] + ext;
    if ext.len() == 0 {
        assert(n.last() == '.');
    } else {
        assert(n.last() == ext.last());
        assert(n.drop_last() =~= stem + seq!['.'] + ext.drop_last());
        lemma_dot_found(stem, ext.drop_last());
    }
}

proof fn lemma_no_dot(s: Seq<char>)
    requires
        forall|i: int| 0 <= i < s.len() ==> #[trigger] s[i] != '.',
    ensures
        last_dot(s) == -1,
    decreases s.len(),
{
    if s.len() > 0 {
        lemma_no_dot(s.drop_last());
    }
}

/// A recorder's stamp is read only where its digits spell a time of the calendar,
/// in a year from 1970 to 2099, behind a number of one to six digits, and where
/// no digit follows it; it is read as just that time.
pub proof fn stamps_are_read_as_written(b: Seq<char>)
    ensures
        after_prefix(b) matches Some((n, t)) ==> ({
            let k = leading_digits(b) as int;
            let r = b.skip(k);
            &&& 1 <= k <= 6 && n == number(b.take(k))
            &&& civil(t) == (num(r, 1, 5), num(r, 5, 7), num(r, 7, 9), num(r, 10, 12), num(r, 12, 14), num(r, 14, 16))
            &&& 1970 <= civil(t).0 <= 2099
            &&& r[0] == '_' && r[9] == '_'
            &&& r.len() == 16 || !is_digit(r[16])
        }),
{
    if after_prefix(b) is Some {
        let k = leading_digits(b) as int;
        let r = b.skip(k);
        civil_undoes_second_number(num(r, 1, 5), num(r, 5, 7), num(r, 7, 9), num(r, 10, 12), num(r, 12, 14), num(r, 14, 16));
    }
}

/// A stamp with a date that the calendar does not have, a time that the clock
/// does not have, or a year before 1970 or after 2099 is no recorder's, and
/// neither is one that a further digit follows.
pub proof fn impossible_stamps_are_refused(b: Seq<char>)
    requires
        ({
            let r = b.skip(leading_digits(b) as int);
            ||| r.len() < 16
            ||| leading_digits(b) == 0
            ||| leading_digits(b) > 6
            ||| !valid_date(num(r, 1, 5), num(r, 5, 7), num(r, 7, 9))
            ||| num(r, 10, 12) > 23
            ||| num(r, 12, 14) > 59
            ||| num(r, 14, 16) > 59
            ||| num(r, 1, 5) < 1970
            ||| num(r, 1, 5) > 2099
            ||| r.len() > 16 && is_digit(r[16])
        }),
    ensures
        after_prefix(b) is None,
{
}

/// The start of a track is read as its name writes it, in this century, wherever
/// that is a date of the calendar; its label is what stands between the stamp
/// and the extension. Hours from 24 on, minutes and seconds from 60 on, months
/// but twelve and days from 32 on are refused.
pub proof fn track_names_are_read_as_written(n: Seq<char>)
    ensures
        track_of(n) matches Some((t, label)) ==> valid_date(2000 + num(n, 0, 2), num(n, 2, 4), num(n, 4, 6)) ==> civil(t) == (
            2000 + num(n, 0, 2),
            num(n, 2, 4),
            num(n, 4, 6),
            num(n, 8, 10),
            num(n, 10, 12),
            num(n, 12, 14),
        ),
        track_of(n) matches Some((t, label)) ==> n.subrange(31, n.len() - 4) == label && label.len() > 0,
        num(n, 8, 10) > 23 || num(n, 10, 12) > 59 || num(n, 12, 14) > 59 || num(n, 2, 4) > 12 || num(n, 2, 4) < 1 || num(n, 4, 6) > 31 || num(n, 4, 6)
            < 1 ==> track_of(n) is None,
        n.len() < 36 ==> track_of(n) is None && !own_shape(n),
{
    if track_of(n) is Some && valid_date(2000 + num(n, 0, 2), num(n, 2, 4), num(n, 4, 6)) {
        civil_undoes_second_number(2000 + num(n, 0, 2), num(n, 2, 4), num(n, 4, 6), num(n, 8, 10), num(n, 10, 12), num(n, 12, 14));
    }
}

} // verus!
