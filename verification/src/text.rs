//! Text helpers: decimal numbers, comparison and pieces of strings, all
//! described by the characters of the strings involved.

use vstd::prelude::*;

verus! {

/// `String::push` of std appends one character at the end of the string.
pub assume_specification[ String::push ](s: &mut String, c: char)
    ensures
        final(s)@ == old(s)@.push(c),
;

// ------------------------------------------------------------------ decimal numbers

/// The character of one decimal digit.
pub open spec fn digit_char(d: nat) -> char {
    (('0' as nat + d % 10) as u8) as char
}

/// A number in decimal, without leading zeros.
pub open spec fn dec(n: nat) -> Seq<char>
    decreases n,
{
    if n < 10 {
        seq![digit_char(n)]
    } else {
        dec(n / 10).push(digit_char(n % 10))
    }
}

/// A signed number in decimal.
pub open spec fn int_dec(i: int) -> Seq<char> {
    if i < 0 {
        seq!['-'] + dec((-i) as nat)
    } else {
        dec(i as nat)
    }
}

/// A signed number in decimal, at least two characters wide, filled with a zero.
pub open spec fn pad2(i: int) -> Seq<char> {
    if 0 <= i < 10 {
        seq!['0', digit_char(i as nat)]
    } else {
        int_dec(i)
    }
}

/// The character of a decimal digit.
pub fn digit(d: u64) -> (c: char)
    requires
        d < 10,
    ensures
        c == digit_char(d as nat),
{
    (48u8 + d as u8) as char
}

/// Appends a number in decimal.
pub fn push_dec(s: &mut String, n: u64)
    ensures
        final(s)@ == old(s)@ + dec(n as nat),
    decreases n,
{
    if n >= 10 {
        push_dec(s, n / 10);
    }
    let c = digit(n % 10);
    s.push(c);
}

/// Appends a large number in decimal.
pub fn push_dec_wide(s: &mut String, n: u128)
    ensures
        final(s)@ == old(s)@ + dec(n as nat),
    decreases n,
{
    if n >= 10 {
        push_dec_wide(s, n / 10);
    }
    let c = digit((n % 10) as u64);
    s.push(c);
}

/// Appends a signed number in decimal.
pub fn push_int(s: &mut String, i: i64)
    ensures
        final(s)@ == old(s)@ + int_dec(i as int),
{
    if i < 0 {
        let m: u64 = (-(i + 1)) as u64 + 1;
        s.push('-');
        push_dec(s, m);
    } else {
        push_dec(s, i as u64);
    }
}

/// Appends a signed number, at least two characters wide, filled with a zero.
pub fn push_pad2(s: &mut String, i: i64)
    ensures
        final(s)@ == old(s)@ + pad2(i as int),
{
    if 0 <= i && i < 10 {
        let c = digit(i as u64);
        s.push('0');
        s.push(c);
    } else {
        push_int(s, i);
    }
}

// ------------------------------------------------------------------ characters

/// The characters of a string.
pub fn to_chars(s: &str) -> (r: Vec<char>)
    ensures
        r@ == s@,
{
    let mut out: Vec<char> = Vec::new();
    for c in it: s.chars()
        invariant
            it.seq() == s@,
            out@ == s@.take(it.index() as int),
    {
        out.push(c);
    }
    out
}

/// The string of a run of characters.
pub fn from_chars(v: &Vec<char>, from: usize, to: usize) -> (r: String)
    requires
        from <= to <= v.len(),
    ensures
        r@ == v@.subrange(from as int, to as int),
{
    let mut out = String::new();
    let mut i: usize = from;
    while i < to
        invariant
            from <= i <= to <= v.len(),
            out@ == v@.subrange(from as int, i as int),
        decreases to - i,
    {
        out.push(v[i]);
        i = i + 1;
    }
    out
}

/// Whether two strings hold the same characters.
pub fn same(a: &str, b: &str) -> (r: bool)
    ensures
        r == (a@ == b@),
{
    let x = to_chars(a);
    let y = to_chars(b);
    if x.len() != y.len() {
        return false;
    }
    let mut i: usize = 0;
    while i < x.len()
        invariant
            x@ == a@,
            y@ == b@,
            i <= x.len(),
            x.len() == y.len(),
            forall|k: int| 0 <= k < i ==> x[k] == y[k],
        decreases x.len() - i,
    {
        if x[i] != y[i] {
            assert(a@[i as int] != b@[i as int]);
            return false;
        }
        i = i + 1;
    }
    assert(a@ =~= b@);
    true
}

/// Whether `s` begins with `p`.
pub open spec fn has_prefix(s: Seq<char>, p: Seq<char>) -> bool {
    p.len() <= s.len() && s.take(p.len() as int) == p
}

/// Whether `s` ends with `p`.
pub open spec fn has_suffix(s: Seq<char>, p: Seq<char>) -> bool {
    p.len() <= s.len() && s.skip(s.len() - p.len()) == p
}

/// Whether the characters from `at` on begin with those of `p`.
pub fn chars_at(v: &Vec<char>, at: usize, p: &Vec<char>) -> (r: bool)
    requires
        at <= v.len(),
    ensures
        r == has_prefix(v@.skip(at as int), p@),
{
    if v.len() - at < p.len() {
        return false;
    }
    let mut i: usize = 0;
    while i < p.len()
        invariant
            i <= p.len(),
            at + p.len() <= v.len(),
            forall|k: int| 0 <= k < i ==> v[at + k] == p[k],
        decreases p.len() - i,
    {
        if v[at + i] != p[i] {
            assert(v@.skip(at as int).take(p@.len() as int)[i as int] != p@[i as int]);
            return false;
        }
        i = i + 1;
    }
    assert(v@.skip(at as int).take(p@.len() as int) =~= p@);
    true
}

/// Whether a string begins with another.
pub fn starts_with(s: &str, p: &str) -> (r: bool)
    ensures
        r == has_prefix(s@, p@),
{
    let v = to_chars(s);
    let w = to_chars(p);
    assert(v@.skip(0) =~= v@);
    chars_at(&v, 0, &w)
}

/// Whether a string ends with another.
pub fn ends_with(s: &str, p: &str) -> (r: bool)
    ensures
        r == has_suffix(s@, p@),
{
    let v = to_chars(s);
    let w = to_chars(p);
    if w.len() > v.len() {
        return false;
    }
    let at: usize = v.len() - w.len();
    assert(v@.skip(at as int).take(w@.len() as int) =~= v@.skip(at as int));
    chars_at(&v, at, &w)
}

/// An ASCII capital letter becomes small; any other character stays.
pub open spec fn lower(c: char) -> char {
    if 'A' <= c && c <= 'Z' {
        ((c as u8 + 32) as u8) as char
    } else {
        c
    }
}

/// An ASCII small letter becomes capital; any other character stays.
pub open spec fn upper(c: char) -> char {
    if 'a' <= c && c <= 'z' {
        ((c as u8 - 32) as u8) as char
    } else {
        c
    }
}

/// A text with its ASCII letters made small.
pub open spec fn lower_all(s: Seq<char>) -> Seq<char> {
    s.map_values(|c: char| lower(c))
}

/// An ASCII capital letter made small.
pub fn to_lower(c: char) -> (r: char)
    ensures
        r == lower(c),
{
    if 'A' <= c && c <= 'Z' {
        (c as u8 + 32) as char
    } else {
        c
    }
}

/// A string with its ASCII letters made small.
pub fn to_lower_all(s: &str) -> (r: String)
    ensures
        r@ == lower_all(s@),
{
    let v = to_chars(s);
    let mut out = String::new();
    let mut i: usize = 0;
    while i < v.len()
        invariant
            v@ == s@,
            i <= v.len(),
            out@ == lower_all(s@.take(i as int)),
        decreases v.len() - i,
    {
        let c = to_lower(v[i]);
        out.push(c);
        i = i + 1;
        assert(out@ =~= lower_all(s@.take(i as int)));
    }
    assert(s@.take(i as int) =~= s@);
    out
}

/// Whether a character is a decimal digit.
pub open spec fn is_digit(c: char) -> bool {
    '0' <= c && c <= '9'
}

/// The value of a decimal digit.
pub open spec fn digit_value(c: char) -> int {
    c as int - '0' as int
}

/// Whether all characters are decimal digits.
pub open spec fn all_digits(s: Seq<char>) -> bool {
    forall|i: int| 0 <= i < s.len() ==> is_digit(#[trigger] s[i])
}

/// The value of a run of decimal digits.
pub open spec fn number(s: Seq<char>) -> int
    decreases s.len(),
{
    if s.len() == 0 {
        0
    } else {
        number(s.drop_last()) * 10 + digit_value(s.last())
    }
}

// ------------------------------------------------------------------ order

/// Lexicographic order by code points.
pub open spec fn lex_less(a: Seq<char>, b: Seq<char>) -> bool
    decreases a.len(),
{
    if b.len() == 0 {
        false
    } else if a.len() == 0 {
        true
    } else if a[0] != b[0] {
        (a[0] as int) < (b[0] as int)
    } else {
        lex_less(a.drop_first(), b.drop_first())
    }
}

/// Whether `a` comes before `b` in lexicographic order.
pub fn text_less(a: &str, b: &str) -> (r: bool)
    ensures
        r == lex_less(a@, b@),
{
    let x = to_chars(a);
    let y = to_chars(b);
    let mut i: usize = 0;
    assert(x@.skip(0) =~= a@);
    assert(y@.skip(0) =~= b@);
    while i < x.len() && i < y.len()
        invariant
            i <= x.len(),
            i <= y.len(),
            lex_less(a@, b@) == lex_less(x@.skip(i as int), y@.skip(i as int)),
        decreases x.len() - i,
    {
        let ghost p = x@.skip(i as int);
        let ghost q = y@.skip(i as int);
        assert(p[0] == x@[i as int] && q[0] == y@[i as int]);
        assert(p.drop_first() =~= x@.skip(i + 1));
        assert(q.drop_first() =~= y@.skip(i + 1));
        if x[i] != y[i] {
            return x[i] < y[i];
        }
        i = i + 1;
    }
    i < y.len()
}

proof fn lemma_lex_irreflexive(a: Seq<char>)
    ensures
        !lex_less(a, a),
    decreases a.len(),
{
    if a.len() > 0 {
        lemma_lex_irreflexive(a.drop_first());
    }
}

/// The lexicographic order is a strict total order.
pub proof fn lex_less_is_total_order(a: Seq<char>, b: Seq<char>, c: Seq<char>)
    ensures
        !lex_less(a, a),
        a != b ==> lex_less(a, b) || lex_less(b, a),
        !(lex_less(a, b) && lex_less(b, a)),
        lex_less(a, b) && lex_less(b, c) ==> lex_less(a, c),
    decreases a.len() + b.len() + c.len(),
{
    lemma_lex_irreflexive(a);
    if a.len() > 0 && b.len() > 0 {
        if c.len() > 0 {
            lex_less_is_total_order(a.drop_first(), b.drop_first(), c.drop_first());
        } else {
            lex_less_is_total_order(a.drop_first(), b.drop_first(), c);
        }
        if a[0] == b[0] && a.drop_first() == b.drop_first() {
            assert(a =~= seq![a[0]] + a.drop_first());
            assert(b =~= seq![b[0]] + b.drop_first());
        }
    } else if a.len() == 0 && b.len() == 0 {
        assert(a =~= b);
    }
}

// ------------------------------------------------------------------ lists

/// The characters of each of several strings.
pub open spec fn texts(v: Seq<String>) -> Seq<Seq<char>> {
    v.map_values(|s: String| s@)
}

/// A copy of a list of strings.
pub fn copy_texts(v: &Vec<String>) -> (r: Vec<String>)
    ensures
        texts(r@) == texts(v@),
{
    let mut out: Vec<String> = Vec::new();
    let mut i: usize = 0;
    while i < v.len()
        invariant
            i <= v.len(),
            out.len() == i,
            forall|k: int| 0 <= k < i ==> (#[trigger] out@[k])@ == v@[k]@,
        decreases v.len() - i,
    {
        out.push(v[i].clone());
        i = i + 1;
    }
    assert(texts(out@) =~= texts(v@));
    out
}

/// A text begins with what it was made to begin with, ends with what it was made
/// to end with, and begins or ends with nothing that is longer than it.
pub proof fn texts_begin_and_end(a: Seq<char>, b: Seq<char>)
    ensures
        has_prefix(a + b, a),
        has_suffix(a + b, b),
        has_prefix(a, b) ==> exists|rest: Seq<char>| a == #[trigger] (b + rest),
        has_suffix(a, b) ==> exists|rest: Seq<char>| a == #[trigger] (rest + b),
        a.len() < b.len() ==> !has_prefix(a, b) && !has_suffix(a, b),
{
    assert((a + b).take(a.len() as int) =~= a);
    assert((a + b).skip((a + b).len() - b.len()) =~= b);
    if has_prefix(a, b) {
        assert(a =~= b + a.skip(b.len() as int));
    }
    if has_suffix(a, b) {
        assert(a =~= a.take(a.len() - b.len()) + b);
    }
}

/// Making letters small turns the 26 capital letters into the small ones that
/// stand 32 places on and nothing else, and making them capital turns them back.
pub proof fn small_and_capital_letters(c: char)
    ensures
        'A' <= c <= 'Z' ==> lower(c) as int == c as int + 32 && upper(lower(c)) == c,
        'a' <= c <= 'z' ==> upper(c) as int == c as int - 32 && lower(upper(c)) == c,
        !('A' <= c <= 'Z') ==> lower(c) == c,
        !('a' <= c <= 'z') ==> upper(c) == c,
        lower(lower(c)) == lower(c),
{
}

/// Digits are worth what they say, and each further digit makes what stands
/// before it worth ten times as much.
pub proof fn digits_count_in_tens(s: Seq<char>, d: nat)
    requires
        d < 10,
    ensures
        is_digit(digit_char(d)),
        digit_value(digit_char(d)) == d,
        number(s.push(digit_char(d))) == 10 * number(s) + d,
        number(Seq::<char>::empty()) == 0,
{
    assert(s.push(digit_char(d)).drop_last() =~= s);
}

} // verus!
