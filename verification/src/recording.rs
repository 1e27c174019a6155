//! A recording put together from its parts: length, name, and what a listener
//! should be warned of.

use vstd::prelude::*;

use crate::calendar::{civil, civil_from_secs, date_text, fmt_date, fmt_time, time_text};
use crate::group::{gap, gap_of, usable};
use crate::names::{numbered, numbered_name, track_file, track_file_name};
use crate::order::{orderly, Ranked};
use crate::scan::{part_views, Part, PartView};
use crate::text::{dec, digit, digit_char, from_chars, lex_less, lex_less_is_total_order, pad2, push_dec, push_pad2, same, text_less, texts, to_chars};
use crate::wav::{nearest_tenth, output_size, to_tenths, total_size};

verus! {

/// Bytes of audio up to this (a petabyte) keep every count inside its type.
pub const LIMIT: u64 = 1_000_000_000_000_000;

/// Starts this far from 1970 (three million years) do so too.
pub const START_LIMIT: i64 = 100_000_000_000_000;

/// Gaps between such parts stay within these hundredths of a second.
pub const GAP_LIMIT: i64 = 130_000_000_000_000_000;

/// Characters of a folder name that a label keeps at most.
pub const LABEL_LENGTH: usize = 40;

// ------------------------------------------------------------------ labels

/// What `char::is_alphanumeric` says of a character.
pub uninterp spec fn alphanumeric(c: char) -> bool;

/// `char::is_alphanumeric` of std tells by the Unicode tables whether a
/// character is a letter or a number: its answer depends on the character
/// alone, and among the ASCII characters it is true of digits and letters only.
pub assume_specification[ char::is_alphanumeric ](c: char) -> (r: bool)
    ensures
        r == alphanumeric(c),
        (c as u32) < 128 ==> r == (('0' <= c && c <= '9') || ('A' <= c && c <= 'Z') || ('a' <= c && c <= 'z')),
;

/// Letters, numbers, `-` and `_` stay; anything else becomes `-`.
pub open spec fn clean(c: char) -> char {
    if alphanumeric(c) || c == '-' || c == '_' {
        c
    } else {
        '-'
    }
}

/// A text without the `-` it begins with.
pub open spec fn trim_front(s: Seq<char>) -> Seq<char>
    decreases s.len(),
{
    if s.len() > 0 && s[0] == '-' {
        trim_front(s.drop_first())
    } else {
        s
    }
}

/// A text without the `-` it ends with.
pub open spec fn trim_back(s: Seq<char>) -> Seq<char>
    decreases s.len(),
{
    if s.len() > 0 && s.last() == '-' {
        trim_back(s.drop_last())
    } else {
        s
    }
}

/// A folder name made fit for file names.
pub open spec fn sanitized(s: Seq<char>) -> Seq<char> {
    let t = trim_back(trim_front(s.map_values(|c: char| clean(c))));
    if t.len() > LABEL_LENGTH {
        t.take(LABEL_LENGTH as int)
    } else {
        t
    }
}

/// A folder name made fit for file names.
pub fn sanitize(s: &str) -> (r: String)
    ensures
        r@ == sanitized(s@),
{
    let v = to_chars(s);
    let mut w: Vec<char> = Vec::new();
    let mut i: usize = 0;
    while i < v.len()
        invariant
            i <= v.len(),
            v@ == s@,
            w.len() == i,
            forall|k: int| 0 <= k < i ==> #[trigger] w@[k] == clean(s@[k]),
        decreases v.len() - i,
    {
        let c = v[i];
        let keep = c.is_alphanumeric() || c == '-' || c == '_';
        w.push(if keep {
            c
        } else {
            '-'
        });
        i = i + 1;
    }
    let ghost m = s@.map_values(|c: char| clean(c));
    assert(w@ =~= m);
    let mut a: usize = 0;
    assert(m.skip(0) =~= m);
    while a < w.len() && w[a] == '-'
        invariant
            w@ == m,
            a <= w.len(),
            trim_front(m) == trim_front(m.skip(a as int)),
        decreases w.len() - a,
    {
        assert(m.skip(a as int).drop_first() =~= m.skip(a + 1));
        a = a + 1;
    }
    let ghost f = m.skip(a as int);
    assert(trim_front(m) == f) by {
        if a < w.len() {
            assert(f[0] == w@[a as int]);
        }
    }
    let mut b: usize = w.len();
    assert(f.take((b - a) as int) =~= f);
    while b > a && w[b - 1] == '-'
        invariant
            w@ == m,
            f == m.skip(a as int),
            a <= b <= w.len(),
            trim_back(f) == trim_back(f.take((b - a) as int)),
        decreases b - a,
    {
        let ghost t = f.take((b - a) as int);
        assert(t.last() == w@[b - 1]);
        assert(t.drop_last() =~= f.take((b - 1 - a) as int));
        b = b - 1;
    }
    let ghost t = f.take((b - a) as int);
    assert(trim_back(f) == t) by {
        if b > a {
            assert(t.last() == w@[b - 1]);
        }
    }
    let end: usize = if b - a > LABEL_LENGTH {
        a + LABEL_LENGTH
    } else {
        b
    };
    assert(m.subrange(a as int, end as int) =~= sanitized(s@));
    from_chars(&w, a, end)
}

/// Every character of a label is a letter, a number, `-` or `_`.
pub proof fn labels_are_clean(s: Seq<char>)
    ensures
        forall|i: int| 0 <= i < sanitized(s).len() ==> alphanumeric(#[trigger] sanitized(s)[i]) || sanitized(s)[i] == '-' || sanitized(s)[i] == '_',
        sanitized(s).len() <= LABEL_LENGTH,
{
    let m = s.map_values(|c: char| clean(c));
    lemma_trim_front(m);
    lemma_trim_back(trim_front(m));
    assert forall|i: int| 0 <= i < sanitized(s).len() implies alphanumeric(#[trigger] sanitized(s)[i]) || sanitized(s)[i] == '-' || sanitized(s)[i] == '_' by {
        let t = trim_back(trim_front(m));
        assert(sanitized(s)[i] == t[i]);
        let k = choose|k: int| 0 <= k < trim_front(m).len() && trim_front(m)[k] == t[i];
        assert(trim_front(m).contains(t[i]));
        assert(m.contains(trim_front(m)[k]));
        let j = choose|j: int| 0 <= j < m.len() && m[j] == trim_front(m)[k];
        assert(m[j] == clean(s[j]));
    }
}

/// What is left after trimming was there before.
proof fn lemma_trim_front(s: Seq<char>)
    ensures
        forall|i: int| 0 <= i < trim_front(s).len() ==> s.contains(#[trigger] trim_front(s)[i]),
    decreases s.len(),
{
    if s.len() > 0 && s[0] == '-' {
        let r = s.drop_first();
        lemma_trim_front(r);
        assert forall|i: int| 0 <= i < trim_front(s).len() implies s.contains(#[trigger] trim_front(s)[i]) by {
            assert(r.contains(trim_front(r)[i]));
            let k = choose|k: int| 0 <= k < r.len() && r[k] == trim_front(r)[i];
            assert(s[k + 1] == trim_front(s)[i]);
        }
    }
}

/// What is left after trimming was there before.
proof fn lemma_trim_back(s: Seq<char>)
    ensures
        forall|i: int| 0 <= i < trim_back(s).len() ==> s.contains(#[trigger] trim_back(s)[i]),
    decreases s.len(),
{
    if s.len() > 0 && s.last() == '-' {
        let r = s.drop_last();
        lemma_trim_back(r);
        assert forall|i: int| 0 <= i < trim_back(s).len() implies s.contains(#[trigger] trim_back(s)[i]) by {
            assert(r.contains(trim_back(r)[i]));
            let k = choose|k: int| 0 <= k < r.len() && r[k] == trim_back(r)[i];
            assert(s[k] == trim_back(s)[i]);
        }
    }
}

// ------------------------------------------------------------------ numbers

/// `n / d` to the nearest whole number, halves away from zero.
pub open spec fn round_div(n: int, d: int) -> int {
    if n >= 0 {
        (2 * n + d) / (2 * d)
    } else {
        -((2 * (-n) + d) / (2 * d))
    }
}

/// `n / d` to the nearest whole number, halves away from zero.
pub fn rounded(n: i128, d: i128) -> (r: i128)
    requires
        0 < d <= 0x1_0000_0000_0000_0000,
        -0x1000_0000_0000_0000_0000_0000_0000_0000 <= n <= 0x1000_0000_0000_0000_0000_0000_0000_0000,
    ensures
        r == round_div(n as int, d as int),
{
    if n >= 0 {
        (2 * n + d) / (2 * d)
    } else {
        let m: i128 = -n;
        -((2 * m + d) / (2 * d))
    }
}

/// A rounded quotient is no larger than what was divided.
pub proof fn lemma_round_div(n: int, d: int)
    requires
        d > 0,
    ensures
        n >= 0 ==> 0 <= round_div(n, d) <= n,
        n <= 0 ==> n <= round_div(n, d) <= 0,
{
    let m = if n >= 0 {
        n
    } else {
        -n
    };
    let q = (2 * m + d) / (2 * d);
    assert(0 <= q <= m) by (nonlinear_arith)
        requires
            q == (2 * m + d) / (2 * d),
            m >= 0,
            d > 0,
    ;
}

/// Hundredths of a second with a sign and one decimal.
pub open spec fn signed_tenths(cs: int) -> Seq<char> {
    let t = nearest_tenth((if cs < 0 {
        -cs
    } else {
        cs
    } * 10) as nat);
    seq![
        if cs < 0 {
            '-'
        } else {
            '+'
        },
    ] + dec(t / 10) + seq!['.', digit_char(t % 10)]
}

/// Appends hundredths of a second with a sign and one decimal.
fn push_signed_tenths(s: &mut String, cs: i64)
    requires
        -GAP_LIMIT <= cs <= GAP_LIMIT,
    ensures
        final(s)@ == old(s)@ + signed_tenths(cs as int),
{
    let m: u64 = if cs < 0 {
        (-cs) as u64
    } else {
        cs as u64
    };
    let t: u64 = to_tenths(m * 10);
    s.push(if cs < 0 {
        '-'
    } else {
        '+'
    });
    push_dec(s, t / 10);
    s.push('.');
    let c = digit(t % 10);
    s.push(c);
    assert(s@ =~= old(s)@ + signed_tenths(cs as int));
}

// ------------------------------------------------------------------ sums

/// Bytes of audio of the first `n` parts.
pub open spec fn byte_sum(p: Seq<PartView>, n: int) -> int
    decreases n,
{
    if n <= 0 {
        0
    } else {
        byte_sum(p, n - 1) + p[n - 1].info.data_len
    }
}

/// Frames of audio of the first `n` parts.
pub open spec fn frame_sum(p: Seq<PartView>, n: int) -> int
    decreases n,
{
    if n <= 0 {
        0
    } else {
        frame_sum(p, n - 1) + p[n - 1].info.frame_count()
    }
}

/// Whether all counts of these parts fit their types.
pub open spec fn countable(p: Seq<PartView>) -> bool {
    &&& forall|i: int| 0 <= i < p.len() ==> usable(#[trigger] p[i]) && -START_LIMIT <= p[i].start_secs <= START_LIMIT && (p[i].gap_to_prev matches Some(g) ==> -GAP_LIMIT <= g <= GAP_LIMIT)
    &&& byte_sum(p, p.len() as int) <= LIMIT
}

/// Sums grow with the parts, and frames are no more than bytes.
proof fn lemma_sums(p: Seq<PartView>, n: int, m: int)
    requires
        0 <= n <= m <= p.len(),
        forall|i: int| 0 <= i < p.len() ==> usable(#[trigger] p[i]),
    ensures
        0 <= byte_sum(p, n) <= byte_sum(p, m),
        0 <= frame_sum(p, n) <= byte_sum(p, n),
        n > 0 ==> 0 <= p[n - 1].info.frame_count() <= p[n - 1].info.data_len <= byte_sum(p, n),
    decreases m, n,
{
    if n < m {
        lemma_sums(p, n, m - 1);
        assert(usable(p[m - 1]));
    } else if n > 0 {
        lemma_sums(p, n - 1, n - 1);
        assert(usable(p[n - 1]));
        let x = p[n - 1].info;
        assert(0 <= x.data_len / x.block_align <= x.data_len) by (nonlinear_arith)
            requires
                x.data_len >= 0,
                x.block_align > 0,
        ;
    }
}

// ------------------------------------------------------------------ gaps

/// Hundredths of a second between the end of `a` and the start of `b`.
pub open spec fn gap_hundredths(a: PartView, b: PartView) -> int {
    round_div(gap(a, b) * 100, a.info.sample_rate)
}

/// The parts with the gap before each noted.
pub open spec fn gapped(p: Seq<PartView>) -> Seq<PartView> {
    Seq::new(
        p.len(),
        |k: int|
            if k == 0 {
                p[0]
            } else {
                PartView { gap_to_prev: Some(gap_hundredths(p[k - 1], p[k])), ..p[k] }
            },
    )
}

/// Hundredths of a second between the end of `a` and the start of `b`.
fn gap_between(a: &Part, b: &Part) -> (r: i64)
    requires
        usable(a@),
        0 <= a@.info.data_len <= LIMIT,
        -START_LIMIT <= a@.start_secs <= START_LIMIT,
        -START_LIMIT <= b@.start_secs <= START_LIMIT,
    ensures
        r == gap_hundredths(a@, b@),
        -GAP_LIMIT <= r <= GAP_LIMIT,
{
    let g: i128 = gap_of(a, b);
    let rate: i128 = a.info.sample_rate as i128;
    let r: i128 = rounded(g * 100, rate);
    proof {
        let d = b@.start_secs - a@.start_secs;
        let n = a@.info.frame_count();
        let data = a@.info.data_len;
        let align = a@.info.block_align;
        assert(0 <= data / align <= data) by (nonlinear_arith)
            requires
                data >= 0,
                align > 0,
        ;
        lemma_round_scaled(d, rate as int, n);
    }
    r as i64
}

/// A bound on hundredths of a second.
proof fn lemma_round_scaled(d: int, rate: int, n: int)
    requires
        -200_000_000_000_000 <= d <= 200_000_000_000_000,
        0 < rate,
        0 <= n <= 1_000_000_000_000_000,
    ensures
        -GAP_LIMIT <= round_div((d * rate - n) * 100, rate) <= GAP_LIMIT,
{
    let x = (d * rate - n) * 100;
    let m = if x >= 0 {
        x
    } else {
        -x
    };
    assert(m <= 120_000_000_000_000_000 * rate) by (nonlinear_arith)
        requires
            m == (d * rate - n) * 100 || m == -((d * rate - n) * 100),
            -200_000_000_000_000 <= d <= 200_000_000_000_000,
            0 < rate,
            0 <= n <= 1_000_000_000_000_000,
    ;
    assert((2 * m + rate) / (2 * rate) <= 120_000_000_000_000_001) by (nonlinear_arith)
        requires
            0 <= m <= 120_000_000_000_000_000 * rate,
            0 < rate,
    ;
    assert((2 * m + rate) / (2 * rate) >= 0) by (nonlinear_arith)
        requires
            0 <= m,
            0 < rate,
    ;
}

/// Whether a gap, if there is one, is within its limit.
pub open spec fn small_gap(g: Option<i64>) -> bool {
    g matches Some(x) ==> -GAP_LIMIT <= x <= GAP_LIMIT
}

/// Notes the gap before each part.
fn note_gaps(parts: &mut Vec<Part>)
    requires
        countable(part_views(old(parts)@)),
    ensures
        part_views(final(parts)@) == gapped(part_views(old(parts)@)),
        forall|k: int| 0 < k < final(parts)@.len() ==> small_gap((#[trigger] final(parts)@[k]).gap_to_prev),
        final(parts)@.len() > 0 ==> final(parts)@[0]@ == old(parts)@[0]@,
{
    let ghost p = part_views(parts@);
    let mut k: usize = 1;
    assert(parts.len() > 0 ==> p[0] == parts@[0]@);
    while k < parts.len()
        invariant
            1 <= k,
            parts.len() == p.len(),
            countable(p),
            p == part_views(old(parts)@),
            parts.len() > 0 ==> k <= parts.len(),
            parts.len() > 0 ==> parts@[0]@ == p[0],
            forall|j: int| 0 < j < k ==> j < p.len() ==> (#[trigger] parts@[j])@ == gapped(p)[j],
            forall|j: int| 0 < j < k ==> j < p.len() ==> small_gap((#[trigger] parts@[j]).gap_to_prev),
            forall|j: int| k <= j < p.len() ==> (#[trigger] parts@[j])@ == p[j],
        decreases parts.len() - k,
    {
        proof {
            assert(usable(p[k - 1]) && usable(p[k as int]));
            lemma_sums(p, k as int, p.len() as int);
            assert(parts@[k as int]@ == p[k as int]);
            if k > 1 {
                assert(parts@[k - 1]@ == gapped(p)[k - 1]);
            }
            assert(gap_hundredths(parts@[k - 1]@, parts@[k as int]@) == gap_hundredths(p[k - 1], p[k as int]));
        }
        let g: i64 = gap_between(&parts[k - 1], &parts[k]);
        let mut x = parts[k].copy();
        x.gap_to_prev = Some(g);
        parts.set(k, x);
        k = k + 1;
    }
    assert(part_views(parts@) =~= gapped(p));
}

// ------------------------------------------------------------------ warnings

/// What there is to say of part `k` of `p`.
pub open spec fn part_warnings(p: Seq<PartView>, k: int) -> Seq<Seq<char>> {
    let repaired = if p[k].repaired {
        seq![
            "Teil "@ + dec((k + 1) as nat)
                + ": Dateikopf unvollständig (Aufnahme vermutlich abgebrochen), Länge aus der Dateigröße bestimmt."@,
        ]
    } else {
        Seq::empty()
    };
    let shifted = match p[k].gap_to_prev {
        Some(g) => if g > 150 || g < -150 {
            seq![
                "Zwischen Teil "@ + dec(k as nat) + " und "@ + dec((k + 1) as nat) + " weichen die Zeitstempel um "@ + signed_tenths(g) + " s ab."@,
            ]
        } else {
            Seq::empty()
        },
        None => Seq::empty(),
    };
    let short = if k + 1 < p.len() && !p[k].full_chunk {
        seq!["Teil "@ + dec((k + 1) as nat) + " ist kürzer als ein voller Chunk, hat aber einen Folgeteil."@]
    } else {
        Seq::empty()
    };
    repaired + shifted + short
}

/// What there is to say of the first `n` parts.
pub open spec fn parts_warnings(p: Seq<PartView>, n: int) -> Seq<Seq<char>>
    decreases n,
{
    if n <= 0 {
        Seq::empty()
    } else {
        parts_warnings(p, n - 1) + part_warnings(p, n - 1)
    }
}

/// What there is to say of a recording.
pub open spec fn all_warnings(p: Seq<PartView>, ambiguous: bool) -> Seq<Seq<char>> {
    let first = if ambiguous {
        seq!["Zuordnung der Teile nicht eindeutig (zwei Sender mit fast gleicher Startzeit?). Bitte die Teile prüfen."@]
    } else {
        Seq::empty()
    };
    let last = if p.len() > 0 && p.last().full_chunk {
        seq!["Der letzte Teil hat volle Chunk-Größe. Möglicherweise fehlt ein Folgeteil."@]
    } else {
        Seq::empty()
    };
    first + parts_warnings(p, p.len() as int) + last
}

/// Appends a text to a list.
fn add_text(out: &mut Vec<String>, s: String)
    ensures
        texts(final(out)@) == texts(old(out)@).push(s@),
{
    out.push(s);
    assert(texts(out@) =~= texts(old(out)@).push(s@));
}

/// Appends what there is to say of part `k`.
fn push_part_warnings(out: &mut Vec<String>, parts: &Vec<Part>, k: usize)
    requires
        k < parts.len(),
        small_gap(parts@[k as int].gap_to_prev),
    ensures
        texts(final(out)@) == texts(old(out)@) + part_warnings(part_views(parts@), k as int),
{
    let ghost p = part_views(parts@);
    let ghost o = texts(out@);
    assert(p[k as int] == parts@[k as int]@);
    if parts[k].repaired {
        let mut s = "Teil ".to_string();
        push_dec(&mut s, k as u64 + 1);
        s.append(": Dateikopf unvollständig (Aufnahme vermutlich abgebrochen), Länge aus der Dateigröße bestimmt.");
        add_text(out, s);
    }
    match parts[k].gap_to_prev {
        Some(g) => {
            if g > 150 || g < -150 {
                let mut s = "Zwischen Teil ".to_string();
                push_dec(&mut s, k as u64);
                s.append(" und ");
                push_dec(&mut s, k as u64 + 1);
                s.append(" weichen die Zeitstempel um ");
                push_signed_tenths(&mut s, g);
                s.append(" s ab.");
                add_text(out, s);
            }
        },
        None => {},
    }
    if k + 1 < parts.len() && !parts[k].full_chunk {
        let mut s = "Teil ".to_string();
        push_dec(&mut s, k as u64 + 1);
        s.append(" ist kürzer als ein voller Chunk, hat aber einen Folgeteil.");
        add_text(out, s);
    }
    assert(texts(out@) =~= o + part_warnings(p, k as int));
}

/// What there is to say of a recording.
fn warnings_of(parts: &Vec<Part>, ambiguous: bool) -> (r: Vec<String>)
    requires
        forall|k: int| 0 <= k < parts.len() ==> small_gap((#[trigger] parts@[k]).gap_to_prev),
    ensures
        texts(r@) == all_warnings(part_views(parts@), ambiguous),
{
    let ghost p = part_views(parts@);
    let mut out: Vec<String> = Vec::new();
    assert(texts(out@) =~= Seq::<Seq<char>>::empty());
    if ambiguous {
        add_text(
            &mut out,
            "Zuordnung der Teile nicht eindeutig (zwei Sender mit fast gleicher Startzeit?). Bitte die Teile prüfen.".to_string(),
        );
    }
    let ghost first = texts(out@);
    let mut k: usize = 0;
    assert(first =~= first + parts_warnings(p, 0));
    while k < parts.len()
        invariant
            k <= parts.len(),
            p == part_views(parts@),
            forall|j: int| 0 <= j < parts.len() ==> small_gap((#[trigger] parts@[j]).gap_to_prev),
            texts(out@) == first + parts_warnings(p, k as int),
        decreases parts.len() - k,
    {
        push_part_warnings(&mut out, parts, k);
        assert(texts(out@) =~= first + parts_warnings(p, k + 1));
        k = k + 1;
    }
    if parts.len() > 0 {
        assert(p.last() == parts@[parts.len() - 1]@);
        if parts[parts.len() - 1].full_chunk {
            add_text(&mut out, "Der letzte Teil hat volle Chunk-Größe. Möglicherweise fehlt ein Folgeteil.".to_string());
        }
    }
    assert(texts(out@) =~= all_warnings(p, ambiguous));
    out
}

// ------------------------------------------------------------------ recordings

/// A recording: its parts in sequence and what follows from them.
#[derive(Debug, Clone)]
pub struct Recording {
    pub id: usize,
    pub label: String,
    pub seq: u32,
    pub date: String,
    pub start: String,
    pub end: String,
    pub format: String,
    pub data_bytes: u64,
    pub output_bytes: u64,
    pub out_name: String,
    pub parts: Vec<Part>,
    pub warnings: Vec<String>,
    pub start_secs: i64,
    pub frames: u64,
    pub sample_rate: u32,
}

/// A recording as mathematical values.
pub struct RecordingView {
    pub id: int,
    pub label: Seq<char>,
    pub seq: int,
    pub date: Seq<char>,
    pub start: Seq<char>,
    pub end: Seq<char>,
    pub format: Seq<char>,
    pub data_bytes: int,
    pub output_bytes: int,
    pub out_name: Seq<char>,
    pub parts: Seq<PartView>,
    pub warnings: Seq<Seq<char>>,
    pub start_secs: int,
    pub frames: int,
    pub sample_rate: int,
}

impl View for Recording {
    type V = RecordingView;

    open spec fn view(&self) -> RecordingView {
        RecordingView {
            id: self.id as int,
            label: self.label@,
            seq: self.seq as int,
            date: self.date@,
            start: self.start@,
            end: self.end@,
            format: self.format@,
            data_bytes: self.data_bytes as int,
            output_bytes: self.output_bytes as int,
            out_name: self.out_name@,
            parts: part_views(self.parts@),
            warnings: texts(self.warnings@),
            start_secs: self.start_secs as int,
            frames: self.frames as int,
            sample_rate: self.sample_rate as int,
        }
    }
}

/// The recordings of a list.
pub open spec fn recording_views(v: Seq<Recording>) -> Seq<RecordingView> {
    v.map_values(|r: Recording| r@)
}

/// The label of a recording: the folder of its first part, or the sequence
/// number where that leaves nothing.
pub open spec fn label_of(first: PartView) -> Seq<char> {
    let s = sanitized(first.folder);
    if s.len() == 0 {
        "DJI"@ + pad2(first.seq)
    } else {
        s
    }
}

/// The recording that parts in sequence make.
pub open spec fn recording_of(p: Seq<PartView>, ambiguous: bool) -> RecordingView {
    let first = p[0];
    let n = p.len() as int;
    let g = gapped(p);
    let data = byte_sum(p, n);
    let frames = frame_sum(p, n);
    let dur = round_div(frames, first.info.sample_rate);
    let a = civil(first.start_secs);
    let e = civil(first.start_secs + dur);
    RecordingView {
        id: 0,
        label: label_of(first),
        seq: first.seq,
        date: date_text(a.0, a.1, a.2),
        start: time_text(a.3, a.4, a.5),
        end: time_text(e.3, e.4, e.5),
        format: first.info.label(),
        data_bytes: data,
        output_bytes: total_size(first.info.fmt.len() as int, data),
        out_name: track_file(first.start_secs, dur, label_of(first)),
        parts: g,
        warnings: all_warnings(g, ambiguous),
        start_secs: first.start_secs,
        frames: frames,
        sample_rate: first.info.sample_rate,
    }
}

impl Recording {
    /// The audio format of the recording.
    pub fn fmt(&self) -> (r: &[u8])
        requires
            self.parts.len() > 0,
        ensures
            r@ == self.parts@[0].info.fmt@,
    {
        self.parts[0].info.fmt.as_slice()
    }
}

/// Bytes and frames of audio of parts.
pub fn sums(parts: &Vec<Part>) -> (r: (u64, u64))
    requires
        countable(part_views(parts@)),
    ensures
        r.0 == byte_sum(part_views(parts@), parts.len() as int),
        r.1 == frame_sum(part_views(parts@), parts.len() as int),
        r.1 <= r.0 <= LIMIT,
{
    let ghost p = part_views(parts@);
    let mut data: u64 = 0;
    let mut frames: u64 = 0;
    let mut i: usize = 0;
    while i < parts.len()
        invariant
            i <= parts.len(),
            p == part_views(parts@),
            countable(p),
            data == byte_sum(p, i as int),
            frames == frame_sum(p, i as int),
            frames <= data <= LIMIT,
        decreases parts.len() - i,
    {
        proof {
            assert(p[i as int] == parts@[i as int]@);
            assert(usable(p[i as int]));
            lemma_sums(p, i + 1, p.len() as int);
        }
        data = data + parts[i].info.data_len;
        frames = frames + parts[i].info.frames();
        i = i + 1;
    }
    (data, frames)
}

/// The label of a recording.
fn label_for(first: &Part) -> (r: String)
    ensures
        r@ == label_of(first@),
{
    let s = sanitize(first.folder.as_str());
    if to_chars(s.as_str()).len() == 0 {
        let mut t = "DJI".to_string();
        push_pad2(&mut t, first.seq as i64);
        t
    } else {
        s
    }
}

/// Puts parts in sequence together to a recording.
pub fn build_recording(parts: Vec<Part>, ambiguous: bool) -> (r: Recording)
    requires
        parts.len() > 0,
        countable(part_views(parts@)),
    ensures
        r@ == recording_of(part_views(parts@), ambiguous),
{
    let ghost p = part_views(parts@);
    assert(p[0] == parts@[0]@);
    assert(usable(p[0]));
    let (data_bytes, frames) = sums(&parts);
    let sample_rate: u32 = parts[0].info.sample_rate;
    let start_secs: i64 = parts[0].start_secs;
    proof {
        lemma_round_div(frames as int, sample_rate as int);
    }
    let dur: i64 = rounded(frames as i128, sample_rate as i128) as i64;
    let label = label_for(&parts[0]);
    let format = parts[0].info.format_label();
    let seq: u32 = parts[0].seq;
    let fmt_len: usize = parts[0].info.fmt.len();
    let (y, mo, d, h, mi, s) = civil_from_secs(start_secs);
    let (_, _, _, eh, emi, es) = civil_from_secs(start_secs + dur);
    let out_name = track_file_name(start_secs, dur, label.as_str());
    let mut parts = parts;
    note_gaps(&mut parts);
    assert forall|k: int| 0 <= k < parts.len() implies small_gap((#[trigger] parts@[k]).gap_to_prev) by {
        if k == 0 {
            assert(parts@[0]@.gap_to_prev == p[0].gap_to_prev);
        }
    }
    let warnings = warnings_of(&parts, ambiguous);
    Recording {
        id: 0,
        label,
        seq,
        date: fmt_date(y, mo, d),
        start: fmt_time(h, mi, s),
        end: fmt_time(eh, emi, es),
        format,
        data_bytes,
        output_bytes: output_size(fmt_len, data_bytes),
        out_name,
        parts,
        warnings,
        start_secs,
        frames,
        sample_rate,
    }
}

// ------------------------------------------------------------------ order and names

impl Ranked for Recording {
    /// By start, then by label.
    open spec fn below(self, other: Recording) -> bool {
        self.start_secs < other.start_secs || (self.start_secs == other.start_secs && lex_less(self.label@, other.label@))
    }

    fn is_below(&self, other: &Recording) -> (r: bool) {
        self.start_secs < other.start_secs || (self.start_secs == other.start_secs && text_less(self.label.as_str(), other.label.as_str()))
    }
}

/// Sorting recordings by start and label never contradicts itself.
pub proof fn recordings_are_orderly(v: Seq<Recording>)
    ensures
        orderly(v),
{
    assert forall|i: int, j: int| #![trigger v[i], v[j]] 0 <= i < v.len() && 0 <= j < v.len() && v[i].below(v[j]) implies !v[j].below(v[i]) by {
        lex_less_is_total_order(v[i].label@, v[j].label@, v[i].label@);
    }
    assert forall|i: int, j: int, k: int|
        #![trigger v[i], v[j], v[k]]
        0 <= i < v.len() && 0 <= j < v.len() && 0 <= k < v.len() && v[i].below(v[k]) implies v[i].below(v[j]) || v[j].below(v[k]) by {
        let (a, b, c) = (v[i].label@, v[j].label@, v[k].label@);
        lex_less_is_total_order(a, b, c);
        lex_less_is_total_order(b, a, c);
        lex_less_is_total_order(a, c, b);
        lex_less_is_total_order(c, b, a);
        lex_less_is_total_order(b, c, a);
        lex_less_is_total_order(c, a, b);
    }
}

/// How many of the first `n` recordings have this name.
pub open spec fn namesakes(v: Seq<RecordingView>, name: Seq<char>, n: int) -> nat
    decreases n,
{
    if n <= 0 {
        0
    } else {
        namesakes(v, name, n - 1) + (if v[n - 1].out_name == name {
            1nat
        } else {
            0nat
        })
    }
}

/// The recordings numbered in sequence; the second and later ones of a name get
/// their number behind it.
pub open spec fn named(v: Seq<RecordingView>) -> Seq<RecordingView> {
    Seq::new(
        v.len(),
        |i: int|
            {
                let c = namesakes(v, v[i].out_name, i);
                RecordingView {
                    id: i,
                    out_name: if c > 0 {
                        numbered(v[i].out_name, c + 1)
                    } else {
                        v[i].out_name
                    },
                    ..v[i]
                }
            },
    )
}

/// Numbers recordings in sequence and tells those of the same name apart.
pub fn assign_names(v: &mut Vec<Recording>)
    ensures
        recording_views(final(v)@) == named(recording_views(old(v)@)),
{
    let ghost w = recording_views(v@);
    let n: usize = v.len();
    let mut left: usize = n;
    // From the last one back, so that the names before are still the first ones.
    while left > 0
        invariant
            left <= n == v.len(),
            n == w.len(),
            forall|k: int| 0 <= k < left ==> (#[trigger] v@[k])@ == w[k],
            forall|k: int| left <= k < n ==> (#[trigger] v@[k])@ == named(w)[k],
        decreases left,
    {
        let i: usize = left - 1;
        let c: u64 = count_namesakes(v, i);
        assert(v@[i as int]@ == w[i as int]);
        assert(namesakes(recording_views(v@), w[i as int].out_name, i as int) == namesakes(w, w[i as int].out_name, i as int)) by {
            lemma_namesakes(recording_views(v@), w, w[i as int].out_name, i as int);
        }
        let name = if c > 0 {
            numbered_name(v[i].out_name.as_str(), c as u128 + 1)
        } else {
            v[i].out_name.clone()
        };
        let mut x = v.remove(i);
        x.id = i;
        x.out_name = name;
        v.insert(i, x);
        left = i;
    }
    assert(recording_views(v@) =~= named(w));
}

/// Equal names give equal counts.
proof fn lemma_namesakes(a: Seq<RecordingView>, b: Seq<RecordingView>, name: Seq<char>, n: int)
    requires
        n <= a.len(),
        n <= b.len(),
        forall|k: int| 0 <= k < n ==> (#[trigger] a[k]).out_name == b[k].out_name,
    ensures
        namesakes(a, name, n) == namesakes(b, name, n),
    decreases n,
{
    if n > 0 {
        lemma_namesakes(a, b, name, n - 1);
    }
}

/// How many recordings before `i` have its name.
fn count_namesakes(v: &Vec<Recording>, i: usize) -> (c: u64)
    requires
        i < v.len(),
    ensures
        c == namesakes(recording_views(v@), v@[i as int].out_name@, i as int),
        c <= i,
{
    let ghost w = recording_views(v@);
    let mut c: u64 = 0;
    let mut k: usize = 0;
    while k < i
        invariant
            k <= i < v.len(),
            w == recording_views(v@),
            c == namesakes(w, v@[i as int].out_name@, k as int),
            c <= k,
        decreases i - k,
    {
        assert(w[k as int] == v@[k as int]@);
        if same(v[k].out_name.as_str(), v[i].out_name.as_str()) {
            c = c + 1;
        }
        k = k + 1;
    }
    c
}

// ------------------------------------------------------------------ what a recording tells

/// A quotient to the nearest is never off by more than half.
pub proof fn rounding_is_to_the_nearest(n: int, d: int)
    requires
        d > 0,
    ensures
        -d <= 2 * (round_div(n, d) * d - n) <= d,
        round_div(-n, d) == -round_div(n, d),
        n >= 0 ==> -d < 2 * (round_div(n, d) * d - n),
{
    let m = if n >= 0 {
        n
    } else {
        -n
    };
    let q = (2 * m + d) / (2 * d);
    vstd::arithmetic::div_mod::lemma_fundamental_div_mod(2 * m + d, 2 * d);
    assert(2 * d * q == 2 * (q * d)) by (nonlinear_arith);
    assert((-q) * d == -(q * d)) by (nonlinear_arith);
    if n == 0 {
        assert(d / (2 * d) == 0) by (nonlinear_arith)
            requires
                d > 0,
        ;
    }
}

/// A recording is made of its parts and nothing else: they stay in sequence, each
/// with the file, the start, the format and the audio it had. It begins with the
/// first, has its number and format, and has the bytes and the frames of all.
pub proof fn recordings_are_their_parts(p: Seq<PartView>, ambiguous: bool, k: int)
    requires
        p.len() > 0,
        0 <= k < p.len(),
    ensures
        ({
            let r = recording_of(p, ambiguous);
            let x = r.parts[k];
            &&& r.parts.len() == p.len()
            &&& x.file == p[k].file && x.path == p[k].path && x.name == p[k].name && x.start_secs == p[k].start_secs && x.info == p[k].info && x.seq == p[k].seq
                && x.size == p[k].size && x.full_chunk == p[k].full_chunk && x.repaired == p[k].repaired
            &&& r.start_secs == p[0].start_secs && r.seq == p[0].seq && r.sample_rate == p[0].info.sample_rate
            &&& r.format == p[0].info.label()
        }),
{
}

/// One part more adds its bytes and frames.
pub proof fn parts_add_up(p: Seq<PartView>, x: PartView)
    ensures
        byte_sum(p.push(x), p.len() as int + 1) == byte_sum(p, p.len() as int) + x.info.data_len,
        frame_sum(p.push(x), p.len() as int + 1) == frame_sum(p, p.len() as int) + x.info.data_len / x.info.block_align,
        byte_sum(p, 0) == 0,
        frame_sum(p, 0) == 0,
{
    lemma_sums_of_front(p, p.push(x), p.len() as int);
}

/// Parts behind the first `n` do not matter for those.
proof fn lemma_sums_of_front(a: Seq<PartView>, b: Seq<PartView>, n: int)
    requires
        n <= a.len(),
        n <= b.len(),
        forall|k: int| 0 <= k < n ==> #[trigger] a[k] == b[k],
    ensures
        byte_sum(a, n) == byte_sum(b, n),
        frame_sum(a, n) == frame_sum(b, n),
    decreases n,
{
    if n > 0 {
        lemma_sums_of_front(a, b, n - 1);
        assert(a[n - 1] == b[n - 1]);
    }
}

/// Where all parts have frames of one size, the frames of a recording are its
/// bytes by that size: none is lost at a join.
pub proof fn frames_are_bytes_by_their_size(p: Seq<PartView>, n: int, align: int)
    requires
        0 <= n <= p.len(),
        align > 0,
        forall|k: int| 0 <= k < p.len() ==> (#[trigger] p[k]).info.block_align == align && p[k].info.data_len % align == 0,
    ensures
        frame_sum(p, n) * align == byte_sum(p, n),
    decreases n,
{
    if n > 0 {
        frames_are_bytes_by_their_size(p, n - 1, align);
        let w = p[n - 1].info;
        assert(w.data_len % align == 0);
        vstd::arithmetic::div_mod::lemma_fundamental_div_mod(w.data_len, align);
        let q = w.data_len / align;
        let f = frame_sum(p, n - 1);
        assert((f + q) * align == f * align + align * q) by (nonlinear_arith);
    }
}

/// What is shown of a recording's time: it starts with its first part and ends as
/// many seconds later as its frames last, to half a second; its name has the same
/// start, length and label.
pub proof fn recordings_last_as_long_as_their_audio(p: Seq<PartView>, ambiguous: bool)
    requires
        p.len() > 0,
        p[0].info.sample_rate > 0,
    ensures
        exists|dur: int|
            #![trigger track_file(p[0].start_secs, dur, recording_of(p, ambiguous).label)]
            ({
                let r = recording_of(p, ambiguous);
                let rate = p[0].info.sample_rate;
                let a = civil(p[0].start_secs);
                let e = civil(p[0].start_secs + dur);
                &&& -rate <= 2 * (dur * rate - frame_sum(p, p.len() as int)) <= rate
                &&& r.date == date_text(a.0, a.1, a.2)
                &&& r.start == time_text(a.3, a.4, a.5)
                &&& r.end == time_text(e.3, e.4, e.5)
                &&& r.out_name == track_file(p[0].start_secs, dur, r.label)
                &&& r.frames == frame_sum(p, p.len() as int)
                &&& r.data_bytes == byte_sum(p, p.len() as int)
            }),
{
    let rate = p[0].info.sample_rate;
    let frames = frame_sum(p, p.len() as int);
    rounding_is_to_the_nearest(frames, rate);
    let dur = round_div(frames, rate);
    let r = recording_of(p, ambiguous);
    assert(r.out_name == track_file(p[0].start_secs, dur, r.label));
}

/// The gap noted before a part is by how much it begins behind the end of the one
/// before it, in hundredths of a second to the nearest; the first has none noted
/// here.
pub proof fn gaps_are_from_end_to_start(p: Seq<PartView>, k: int)
    requires
        0 <= k < p.len(),
        k > 0 ==> p[k - 1].info.sample_rate > 0,
    ensures
        k == 0 ==> gapped(p)[k].gap_to_prev == p[0].gap_to_prev,
        k > 0 ==> (gapped(p)[k].gap_to_prev matches Some(g) && ({
            let a = p[k - 1];
            let late = (p[k].start_secs - a.start_secs) * a.info.sample_rate - a.info.data_len / a.info.block_align;
            -a.info.sample_rate <= 2 * (g * a.info.sample_rate - 100 * late) <= a.info.sample_rate
        })),
{
    if k > 0 {
        let a = p[k - 1];
        rounding_is_to_the_nearest(gap(a, p[k]) * 100, a.info.sample_rate);
    }
}

/// One where something holds, nothing where it does not.
pub open spec fn once(b: bool) -> int {
    if b {
        1
    } else {
        0
    }
}

/// How much is said of a part: something if its header was repaired, something if
/// it is off by more than one and a half seconds, and something if it is followed
/// though it is no full chunk.
pub open spec fn remarks(p: Seq<PartView>, k: int) -> int {
    once(p[k].repaired) + once(p[k].gap_to_prev matches Some(g) && (g > 150 || g < -150)) + once(k + 1 < p.len() && !p[k].full_chunk)
}

/// How much is said of the first `n` parts.
pub open spec fn all_remarks(p: Seq<PartView>, n: int) -> int
    decreases n,
{
    if n <= 0 {
        0
    } else {
        all_remarks(p, n - 1) + remarks(p, n - 1)
    }
}

/// As much is said of parts as there is to say.
proof fn lemma_remarks(p: Seq<PartView>, n: int)
    requires
        0 <= n <= p.len(),
    ensures
        parts_warnings(p, n).len() == all_remarks(p, n),
    decreases n,
{
    if n > 0 {
        lemma_remarks(p, n - 1);
    }
}

/// A recording warns of each thing that is doubtful about it, and of nothing
/// else: that the choice of its parts was close, of each part what there is to
/// say of it, and that its last part is a full chunk, so that one may be missing.
pub proof fn recordings_warn_of_what_is_doubtful(p: Seq<PartView>, ambiguous: bool)
    requires
        p.len() > 0,
    ensures
        all_warnings(p, ambiguous).len() == once(ambiguous) + all_remarks(p, p.len() as int) + once(p[p.len() - 1].full_chunk),
        p.len() == 1 && !ambiguous && !p[0].repaired && !p[0].full_chunk && p[0].gap_to_prev is None ==> all_warnings(p, ambiguous).len() == 0,
{
    lemma_remarks(p, p.len() as int);
    reveal_with_fuel(all_remarks, 2);
}

/// A folder name of letters, numbers, `-` and `_` that neither begins nor ends
/// with `-`, of at most forty characters, is the label as it is.
pub proof fn clean_names_stay(s: Seq<char>)
    requires
        forall|i: int| 0 <= i < s.len() ==> alphanumeric(#[trigger] s[i]) || s[i] == '-' || s[i] == '_',
        s.len() > 0 ==> s[0] != '-' && s[s.len() - 1] != '-',
        s.len() <= 40,
    ensures
        sanitized(s) == s,
{
    let t = s.map_values(|c: char| clean(c));
    assert(t =~= s) by {
        assert forall|i: int| 0 <= i < s.len() implies t[i] == s[i] by {
            assert(alphanumeric(s[i]) || s[i] == '-' || s[i] == '_');
        }
    }
}

/// What is trimmed is only `-`, at the front and at the back, and all of it there.
proof fn lemma_trimmed(s: Seq<char>)
    ensures
        trim_front(s).len() <= s.len(),
        trim_front(s) == s.skip(s.len() - trim_front(s).len()),
        forall|i: int| 0 <= i < s.len() - trim_front(s).len() ==> #[trigger] s[i] == '-',
        trim_front(s).len() > 0 ==> trim_front(s)[0] != '-',
        trim_back(s).len() <= s.len(),
        trim_back(s) == s.take(trim_back(s).len() as int),
        forall|i: int| trim_back(s).len() <= i < s.len() ==> #[trigger] s[i] == '-',
        trim_back(s).len() > 0 ==> trim_back(s).last() != '-',
    decreases s.len(),
{
    assert(s.skip(0) =~= s);
    assert(s.take(s.len() as int) =~= s);
    if s.len() > 0 {
        let f = s.drop_first();
        let b = s.drop_last();
        lemma_trimmed(f);
        lemma_trimmed(b);
        if s[0] == '-' {
            let n = trim_front(s).len() as int;
            assert(s.skip(s.len() - n) =~= f.skip(f.len() - n));
            assert forall|i: int| 0 <= i < s.len() - n implies #[trigger] s[i] == '-' by {
                if i > 0 {
                    assert(f[i - 1] == '-');
                }
            }
        }
        if s.last() == '-' {
            let n = trim_back(s).len() as int;
            assert(s.take(n) =~= b.take(n));
            assert forall|i: int| n <= i < s.len() implies #[trigger] s[i] == '-' by {
                if i < s.len() - 1 {
                    assert(b[i] == '-');
                }
            }
        }
    }
}

/// A label is the first forty characters of what is left of a folder name without
/// the `-` at its ends: from some place on, each character as it is if it is a
/// letter, a number, `-` or `_`, and a `-` for any other.
pub proof fn labels_keep_what_they_can(s: Seq<char>)
    ensures
        sanitized(s).len() <= 40,
        sanitized(s).len() > 0 ==> sanitized(s)[0] != '-',
        exists|a: int, b: int|
            0 <= a && b <= s.len() && a <= b && #[trigger] s.subrange(a, b).len() == b - a && sanitized(s).len() == (if b - a > 40 {
                40
            } else {
                b - a
            }) && (forall|i: int|
                0 <= i < sanitized(s).len() ==> #[trigger] sanitized(s)[i] == (if alphanumeric(s[a + i]) || s[a + i] == '-' || s[a + i] == '_' {
                    s[a + i]
                } else {
                    '-'
                })) && (forall|i: int| 0 <= i < a || b <= i < s.len() ==> !(alphanumeric(#[trigger] s[i]) && s[i] != '-') && s[i] != '_'),
{
    let t = s.map_values(|c: char| clean(c));
    let u = trim_front(t);
    let v = trim_back(u);
    lemma_trimmed(t);
    lemma_trimmed(u);
    let a = t.len() - u.len();
    let b = a + v.len();
    assert(s.subrange(a, b).len() == b - a);
    assert forall|i: int| 0 <= i < a || b <= i < s.len() implies !(alphanumeric(#[trigger] s[i]) && s[i] != '-') && s[i] != '_' by {
        if i < a {
            assert(t[i] == '-');
        } else {
            assert(u[i - a] == t[i]);
            assert(u[i - a] == '-');
        }
        assert(t[i] == clean(s[i]));
    }
    assert forall|i: int| 0 <= i < sanitized(s).len() implies #[trigger] sanitized(s)[i] == (if alphanumeric(s[a + i]) || s[a + i] == '-' || s[a + i] == '_' {
        s[a + i]
    } else {
        '-'
    }) by {
        assert(sanitized(s)[i] == v[i]);
        assert(v[i] == u[i]);
        assert(u[i] == t[a + i]);
    }
    if v.len() > 0 {
        assert(v[0] == u[0]);
    }
}

/// The label of a recording is that of its first part's folder, and the
/// recorder's number in two digits where the folder's name leaves nothing.
pub proof fn recordings_are_labelled_by_their_folder(p: Seq<PartView>, ambiguous: bool)
    requires
        p.len() > 0,
    ensures
        sanitized(p[0].folder).len() > 0 ==> recording_of(p, ambiguous).label == sanitized(p[0].folder),
        sanitized(p[0].folder).len() == 0 ==> recording_of(p, ambiguous).label == "DJI"@ + pad2(p[0].seq),
{
}

/// Recordings are numbered from zero on. The first of a name keeps it; a later one
/// gets how many there were of that name, itself included. Nothing else changes.
pub proof fn namesakes_are_numbered(v: Seq<RecordingView>, i: int)
    requires
        0 <= i < v.len(),
    ensures
        ({
            let r = named(v)[i];
            &&& named(v).len() == v.len()
            &&& r.id == i
            &&& r == (RecordingView { id: i, out_name: r.out_name, ..v[i] })
            &&& (forall|k: int| 0 <= k < i ==> (#[trigger] v[k]).out_name != v[i].out_name) ==> r.out_name == v[i].out_name
            &&& forall|k: int|
                0 <= k < i && (#[trigger] v[k]).out_name == v[i].out_name && (forall|j: int| k < j < i ==> (#[trigger] v[j]).out_name != v[i].out_name) && (forall|j: int|
                    0 <= j < k ==> (#[trigger] v[j]).out_name != v[i].out_name) ==> r.out_name == numbered(v[i].out_name, 2)
        }),
{
    if forall|k: int| 0 <= k < i ==> (#[trigger] v[k]).out_name != v[i].out_name {
        lemma_no_namesakes(v, v[i].out_name, 0, i);
    }
    assert forall|k: int|
        0 <= k < i && (#[trigger] v[k]).out_name == v[i].out_name && (forall|j: int| k < j < i ==> (#[trigger] v[j]).out_name != v[i].out_name) && (forall|j: int|
            0 <= j < k ==> (#[trigger] v[j]).out_name != v[i].out_name) implies named(v)[i].out_name == numbered(v[i].out_name, 2) by {
        lemma_no_namesakes(v, v[i].out_name, 0, k);
        lemma_no_namesakes(v, v[i].out_name, k + 1, i);
    }
}

/// What has another name does not count.
proof fn lemma_no_namesakes(v: Seq<RecordingView>, name: Seq<char>, a: int, b: int)
    requires
        0 <= a <= b <= v.len(),
        forall|k: int| a <= k < b ==> (#[trigger] v[k]).out_name != name,
    ensures
        namesakes(v, name, b) == namesakes(v, name, a),
    decreases b - a,
{
    if a < b {
        lemma_no_namesakes(v, name, a, b - 1);
        assert(v[b - 1].out_name != name);
    }
}

/// A deviation is shown with its sign; one of whole tenths of a second is shown
/// exactly, and as far as it goes to one side as to the other.
pub proof fn deviations_are_shown_with_their_sign(tenths: nat)
    ensures
        signed_tenths(10 * tenths as int) == seq!['+'] + dec(tenths / 10) + seq!['.', digit_char(tenths % 10)],
        tenths > 0 ==> signed_tenths(-10 * tenths as int) == seq!['-'] + dec(tenths / 10) + seq!['.', digit_char(tenths % 10)],
{
    let m = (tenths * 100) as nat;
    assert(nearest_tenth(m) == tenths);
}

proof fn lemma_warning_listed(p: Seq<PartView>, n: int, k: int, i: int)
    requires
        0 <= k < n <= p.len(),
        0 <= i < part_warnings(p, k).len(),
    ensures
        parts_warnings(p, n).contains(part_warnings(p, k)[i]),
    decreases n,
{
    let v = parts_warnings(p, n);
    let w = parts_warnings(p, n - 1);
    if k == n - 1 {
        assert(v[w.len() + i] == part_warnings(p, k)[i]);
    } else {
        lemma_warning_listed(p, n - 1, k, i);
        let m = choose|m: int| 0 <= m < w.len() && w[m] == part_warnings(p, k)[i];
        assert(v[m] == w[m]);
    }
}

/// Each warning names the part it is about, counted from one, and a deviation of
/// the times names the two parts and how far they are off.
pub proof fn warnings_name_their_part(p: Seq<PartView>, k: int, n: int)
    requires
        0 <= k < n <= p.len(),
    ensures
        p[k].repaired ==> parts_warnings(p, n).contains(
            "Teil "@ + dec((k + 1) as nat) + ": Dateikopf unvollständig (Aufnahme vermutlich abgebrochen), Länge aus der Dateigröße bestimmt."@,
        ),
        p[k].gap_to_prev matches Some(g) ==> g > 150 || g < -150 ==> parts_warnings(p, n).contains(
            "Zwischen Teil "@ + dec(k as nat) + " und "@ + dec((k + 1) as nat) + " weichen die Zeitstempel um "@ + signed_tenths(g) + " s ab."@,
        ),
        k + 1 < p.len() && !p[k].full_chunk ==> parts_warnings(p, n).contains(
            "Teil "@ + dec((k + 1) as nat) + " ist kürzer als ein voller Chunk, hat aber einen Folgeteil."@,
        ),
{
    let w = part_warnings(p, k);
    if p[k].repaired {
        lemma_warning_listed(p, n, k, 0);
    }
    let a = once(p[k].repaired);
    if let Some(g) = p[k].gap_to_prev {
        if g > 150 || g < -150 {
            lemma_warning_listed(p, n, k, a);
            assert(w[a] == "Zwischen Teil "@ + dec(k as nat) + " und "@ + dec((k + 1) as nat) + " weichen die Zeitstempel um "@ + signed_tenths(g) + " s ab."@);
        }
    }
    let b = a + once(p[k].gap_to_prev matches Some(g) && (g > 150 || g < -150));
    if k + 1 < p.len() && !p[k].full_chunk {
        lemma_warning_listed(p, n, k, b);
        assert(w[b] == "Teil "@ + dec((k + 1) as nat) + " ist kürzer als ein voller Chunk, hat aber einen Folgeteil."@);
    }
}

} // verus!
