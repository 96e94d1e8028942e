//! CSV rows: an RFC 3339 timestamp, the dashboard, the metric's ids, name,
//! value and unit, with RFC 4180 quoting.
use vstd::prelude::*;

use crate::export::calendar::{
    civil_from_days, date_of, days_before_year, lemma_date_before_10000, lemma_date_of,
    lemma_days_before_10000,
    lemma_date_order, month_len,
};
use crate::backend::session::{ring_of, SessionTable, SessionView};
use crate::model::dashboard::{has_metric, Dashboard};
use crate::model::graph::GraphSpec;
use crate::model::Sample;
use crate::seqs::keep_where;
use crate::text::{
    chars_of, decimal, is_digit, lemma_padded_order, lemma_padded_shape, lemma_text_le_blocks,
    pow10, push_decimal, push_padded, push_str, string_of, text_le, zero_padded,
};

verus! {

pub const HEADER: &'static str =
    "timestamp_rfc3339,dashboard,backend_id,capability_id,metric_id,metric_name,value,unit";

/// `ms` milliseconds after the epoch as `YYYY-MM-DDTHH:MM:SS.mmmZ` in UTC.
pub open spec fn rfc3339(ms: u64) -> Seq<char> {
    let secs = ms / 1000;
    let millis = ms % 1000;
    let days = secs / 86400;
    let tod = secs % 86400;
    let date = date_of(days as int);
    zero_padded(date.0 as nat, 4) + seq!['-'] + zero_padded(date.1 as nat, 2) + seq!['-']
        + zero_padded(date.2 as nat, 2) + seq!['T'] + zero_padded((tod / 3600) as nat, 2) + seq![
        ':',
    ] + zero_padded(((tod % 3600) / 60) as nat, 2) + seq![':'] + zero_padded((tod % 60) as nat, 2)
        + seq!['.'] + zero_padded(millis as nat, 3) + seq!['Z']
}

/// Formats a sample time (milliseconds since the epoch) as RFC 3339 in UTC
/// with millisecond precision.
pub fn format_rfc3339(time: u64) -> (res: String)
    ensures
        res@ == rfc3339(time),
{
    let secs = time / 1000;
    let millis = time % 1000;
    let days = secs / 86400;
    let tod = secs % 86400;
    let (year, month, day) = civil_from_days(days as i64);
    let hour = tod / 3600;
    let minute = (tod % 3600) / 60;
    let second = tod % 60;
    let mut s = String::new();
    push_padded(&mut s, year as u64, 4);
    s.push('-');
    push_padded(&mut s, month, 2);
    s.push('-');
    push_padded(&mut s, day, 2);
    s.push('T');
    push_padded(&mut s, hour, 2);
    s.push(':');
    push_padded(&mut s, minute, 2);
    s.push(':');
    push_padded(&mut s, second, 2);
    s.push('.');
    push_padded(&mut s, millis, 3);
    s.push('Z');
    proof {
        assert(s@ =~= rfc3339(time));
    }
    s
}

/// The first millisecond of the year 10000, from which years take five
/// digits.
pub open spec fn year_10000_ms() -> nat {
    253_402_300_800_000
}

/// `s` has the shape `YYYY-MM-DDTHH:MM:SS.mmmZ`.
pub open spec fn rfc3339_shape(s: Seq<char>) -> bool {
    &&& s.len() == 24
    &&& s[4] == '-' && s[7] == '-' && s[10] == 'T' && s[13] == ':' && s[16] == ':'
    &&& s[19] == '.' && s[23] == 'Z'
    &&& forall|i: int|
        0 <= i < 24 && i != 4 && i != 7 && i != 10 && i != 13 && i != 16 && i != 19 && i != 23
            ==> is_digit(#[trigger] s[i])
}

proof fn lemma_pow10_values()
    ensures
        pow10(2) == 100,
        pow10(3) == 1000,
        pow10(4) == 10000,
{
    assert(pow10(0) == 1);
    assert(pow10(1) == 10);
    assert(pow10(2) == 100);
    assert(pow10(3) == 1000);
}

/// The fields of `ms` as `rfc3339` shows them: year, month, day, hour,
/// minute, second and millisecond.
pub open spec fn stamp_fields(ms: u64) -> (int, int, int, nat, nat, nat, nat) {
    let secs = ms / 1000;
    let tod = secs % 86400;
    let date = date_of((secs / 86400) as int);
    (date.0, date.1, date.2, (tod / 3600) as nat, ((tod % 3600) / 60) as nat, (tod % 60) as nat, (
    ms % 1000) as nat)
}

/// The fields of `ms` fit their widths, before the year 10000.
proof fn lemma_stamp_fields(ms: u64)
    requires
        ms < year_10000_ms(),
    ensures
        ({
            let f = stamp_fields(ms);
            &&& 1970 <= f.0 < 10000 && 1 <= f.1 <= 12 && 1 <= f.2 <= 31
            &&& f.3 < 24 && f.4 < 60 && f.5 < 60 && f.6 < 1000
        }),
{
    let days = (ms / 1000 / 86400) as int;
    lemma_days_before_10000();
    assert(days < 2932897);
    lemma_date_of(days);
    lemma_date_before_10000(days);
    let d = date_of(days);
    assert(month_len(d.0, d.1) <= 31);
}

/// Before the year 10000, an RFC 3339 time has the shape
/// `YYYY-MM-DDTHH:MM:SS.mmmZ`: 24 characters, digits but for the separators.
pub proof fn lemma_rfc3339_shape(ms: u64)
    requires
        ms < year_10000_ms(),
    ensures
        rfc3339_shape(rfc3339(ms)),
{
    lemma_stamp_fields(ms);
    lemma_pow10_values();
    let f = stamp_fields(ms);
    lemma_padded_shape(f.0 as nat, 4);
    lemma_padded_shape(f.1 as nat, 2);
    lemma_padded_shape(f.2 as nat, 2);
    lemma_padded_shape(f.3, 2);
    lemma_padded_shape(f.4, 2);
    lemma_padded_shape(f.5, 2);
    lemma_padded_shape(f.6, 3);
    let a = zero_padded(f.0 as nat, 4);
    let b = zero_padded(f.1 as nat, 2);
    let c = zero_padded(f.2 as nat, 2);
    let d = zero_padded(f.3, 2);
    let e = zero_padded(f.4, 2);
    let g = zero_padded(f.5, 2);
    let h = zero_padded(f.6, 3);
    let s = rfc3339(ms);
    assert(s == a + seq!['-'] + b + seq!['-'] + c + seq!['T'] + d + seq![':'] + e + seq![':'] + g
        + seq!['.'] + h + seq!['Z']);
    assert(s.len() == 24);
    assert(s[4] == '-' && s[7] == '-' && s[10] == 'T' && s[13] == ':' && s[16] == ':' && s[19]
        == '.' && s[23] == 'Z');
    assert forall|i: int|
        0 <= i < 24 && i != 4 && i != 7 && i != 10 && i != 13 && i != 16 && i != 19 && i != 23
            implies is_digit(#[trigger] s[i]) by {
        if i < 4 {
            assert(s[i] == a[i]);
        } else if i < 7 {
            assert(s[i] == b[i - 5]);
        } else if i < 10 {
            assert(s[i] == c[i - 8]);
        } else if i < 13 {
            assert(s[i] == d[i - 11]);
        } else if i < 16 {
            assert(s[i] == e[i - 14]);
        } else if i < 19 {
            assert(s[i] == g[i - 17]);
        } else {
            assert(s[i] == h[i - 20]);
        }
    }
}

/// A number block followed by a separator: equal numbers leave the rest to
/// decide; otherwise the smaller number comes first.
proof fn lemma_number_then(n1: nat, n2: nat, w: nat, sep: char, r1: Seq<char>, r2: Seq<char>)
    requires
        w >= 1,
        n1 < pow10(w),
        n2 < pow10(w),
    ensures
        text_le(zero_padded(n1, w) + (seq![sep] + r1), zero_padded(n2, w) + (seq![sep] + r2))
            == if n1 == n2 {
            text_le(r1, r2)
        } else {
            n1 < n2
        },
{
    lemma_padded_shape(n1, w);
    lemma_padded_shape(n2, w);
    lemma_padded_order(n1, n2, w);
    lemma_text_le_blocks(zero_padded(n1, w), zero_padded(n2, w), seq![sep] + r1, seq![sep] + r2);
    lemma_text_le_blocks(seq![sep], seq![sep], r1, r2);
}

/// Splitting by `k`: a larger number has a larger or equal quotient, and
/// with equal quotients a larger or equal remainder.
proof fn lemma_split_order(x1: nat, x2: nat, k: nat)
    requires
        k > 0,
        x1 <= x2,
    ensures
        x1 / k <= x2 / k,
        x1 / k == x2 / k ==> x1 % k <= x2 % k,
{
    vstd::arithmetic::div_mod::lemma_div_is_ordered(x1 as int, x2 as int, k as int);
    vstd::arithmetic::div_mod::lemma_fundamental_div_mod(x1 as int, k as int);
    vstd::arithmetic::div_mod::lemma_fundamental_div_mod(x2 as int, k as int);
}

/// Fields in (year, month, day, hour, minute, second, millisecond) order.
pub open spec fn fields_le(a: (int, int, int, nat, nat, nat, nat), b: (int, int, int, nat, nat, nat, nat)) -> bool {
    a.0 < b.0 || (a.0 == b.0 && (a.1 < b.1 || (a.1 == b.1 && (a.2 < b.2 || (a.2 == b.2 && (a.3
        < b.3 || (a.3 == b.3 && (a.4 < b.4 || (a.4 == b.4 && (a.5 < b.5 || (a.5 == b.5 && a.6
        <= b.6)))))))))))
}

/// The fields of a later time are not smaller.
proof fn lemma_fields_order(ms1: u64, ms2: u64)
    requires
        ms1 <= ms2,
    ensures
        fields_le(stamp_fields(ms1), stamp_fields(ms2)),
{
    let secs1 = (ms1 / 1000) as nat;
    let secs2 = (ms2 / 1000) as nat;
    lemma_split_order(ms1 as nat, ms2 as nat, 1000);
    lemma_split_order(secs1, secs2, 86400);
    let days1 = secs1 / 86400;
    let days2 = secs2 / 86400;
    lemma_date_order(days1 as int, days2 as int);
    let tod1 = secs1 % 86400;
    let tod2 = secs2 % 86400;
    if days1 == days2 {
        lemma_split_order(tod1, tod2, 3600);
        if tod1 / 3600 == tod2 / 3600 {
            lemma_split_order(tod1 % 3600, tod2 % 3600, 60);
            vstd::arithmetic::div_mod::lemma_mod_mod(tod1 as int, 3600, 60);
            vstd::arithmetic::div_mod::lemma_mod_mod(tod2 as int, 3600, 60);
        }
    }
}

/// The text of the seconds and milliseconds fields, from the seconds on.
pub open spec fn seconds_text(f: (int, int, int, nat, nat, nat, nat)) -> Seq<char> {
    zero_padded(f.5, 2) + (seq!['.'] + (zero_padded(f.6, 3) + seq!['Z']))
}

/// The text of the time of day, from the hour on.
pub open spec fn time_text(f: (int, int, int, nat, nat, nat, nat)) -> Seq<char> {
    zero_padded(f.3, 2) + (seq![':'] + (zero_padded(f.4, 2) + (seq![':'] + seconds_text(f))))
}

/// The text of the fields, block by block.
pub open spec fn stamp_text(f: (int, int, int, nat, nat, nat, nat)) -> Seq<char> {
    let date = zero_padded(f.2 as nat, 2) + (seq!['T'] + time_text(f));
    zero_padded(f.0 as nat, 4) + (seq!['-'] + (zero_padded(f.1 as nat, 2) + (seq!['-'] + date)))
}

/// Fields in order give texts in order.
proof fn lemma_stamp_text_order(
    f1: (int, int, int, nat, nat, nat, nat),
    f2: (int, int, int, nat, nat, nat, nat),
)
    requires
        fields_le(f1, f2),
        0 <= f1.0 < 10000 && 0 <= f1.1 < 100 && 0 <= f1.2 < 100 && f1.3 < 100 && f1.4 < 100 && f1.5
            < 100 && f1.6 < 1000,
        0 <= f2.0 < 10000 && 0 <= f2.1 < 100 && 0 <= f2.2 < 100 && f2.3 < 100 && f2.4 < 100 && f2.5
            < 100 && f2.6 < 1000,
    ensures
        text_le(stamp_text(f1), stamp_text(f2)),
{
    lemma_pow10_values();
    let z1 = seq!['Z'];
    lemma_padded_shape(f1.6, 3);
    lemma_padded_shape(f2.6, 3);
    lemma_padded_order(f1.6, f2.6, 3);
    lemma_text_le_blocks(zero_padded(f1.6, 3), zero_padded(f2.6, 3), z1, z1);
    lemma_text_le_blocks(z1, z1, Seq::<char>::empty(), Seq::<char>::empty());
    assert(z1 + Seq::<char>::empty() =~= z1);
    let g1 = zero_padded(f1.6, 3) + z1;
    let g2 = zero_padded(f2.6, 3) + z1;
    assert(f1.6 <= f2.6 ==> text_le(g1, g2));
    let t1 = zero_padded(f1.5, 2) + (seq!['.'] + g1);
    let t2 = zero_padded(f2.5, 2) + (seq!['.'] + g2);
    lemma_number_then(f1.5, f2.5, 2, '.', g1, g2);
    let u1 = zero_padded(f1.4, 2) + (seq![':'] + t1);
    let u2 = zero_padded(f2.4, 2) + (seq![':'] + t2);
    lemma_number_then(f1.4, f2.4, 2, ':', t1, t2);
    let x1 = zero_padded(f1.3, 2) + (seq![':'] + u1);
    let x2 = zero_padded(f2.3, 2) + (seq![':'] + u2);
    lemma_number_then(f1.3, f2.3, 2, ':', u1, u2);
    let y1 = zero_padded(f1.2 as nat, 2) + (seq!['T'] + x1);
    let y2 = zero_padded(f2.2 as nat, 2) + (seq!['T'] + x2);
    lemma_number_then(f1.2 as nat, f2.2 as nat, 2, 'T', x1, x2);
    let w1 = zero_padded(f1.1 as nat, 2) + (seq!['-'] + y1);
    let w2 = zero_padded(f2.1 as nat, 2) + (seq!['-'] + y2);
    lemma_number_then(f1.1 as nat, f2.1 as nat, 2, '-', y1, y2);
    lemma_number_then(f1.0 as nat, f2.0 as nat, 4, '-', w1, w2);
}

/// Before the year 10000, RFC 3339 times sort as the times they show: a
/// later time never comes first in text order.
pub proof fn lemma_rfc3339_order(ms1: u64, ms2: u64)
    requires
        ms1 <= ms2,
        ms2 < year_10000_ms(),
    ensures
        text_le(rfc3339(ms1), rfc3339(ms2)),
{
    lemma_stamp_fields(ms1);
    lemma_stamp_fields(ms2);
    lemma_fields_order(ms1, ms2);
    lemma_stamp_text_order(stamp_fields(ms1), stamp_fields(ms2));
    lemma_stamp_text(ms1);
    lemma_stamp_text(ms2);
}

/// `rfc3339` is the text of its fields.
proof fn lemma_stamp_text(ms: u64)
    ensures
        rfc3339(ms) == stamp_text(stamp_fields(ms)),
{
    let f = stamp_fields(ms);
    lemma_concat_blocks(
        zero_padded(f.0 as nat, 4),
        zero_padded(f.1 as nat, 2),
        zero_padded(f.2 as nat, 2),
        zero_padded(f.3, 2),
        zero_padded(f.4, 2),
        zero_padded(f.5, 2),
        zero_padded(f.6, 3),
    );
}

/// The blocks of an RFC 3339 text, joined from the left or from the right.
proof fn lemma_concat_blocks(
    a: Seq<char>,
    b: Seq<char>,
    c: Seq<char>,
    d: Seq<char>,
    e: Seq<char>,
    f: Seq<char>,
    g: Seq<char>,
)
    ensures
        ({
            let left = a + seq!['-'] + b + seq!['-'] + c + seq!['T'] + d + seq![':'] + e + seq![':']
                + f + seq!['.'] + g + seq!['Z'];
            let r3 = f + (seq!['.'] + (g + seq!['Z']));
            let r7 = d + (seq![':'] + (e + (seq![':'] + r3)));
            let r9 = c + (seq!['T'] + r7);
            left == a + (seq!['-'] + (b + (seq!['-'] + r9)))
        }),
{
    let r1 = g + seq!['Z'];
    let r2 = seq!['.'] + r1;
    let r3 = f + r2;
    let r4 = seq![':'] + r3;
    let r5 = e + r4;
    let r6 = seq![':'] + r5;
    let r7 = d + r6;
    let r8 = seq!['T'] + r7;
    let r9 = c + r8;
    let r10 = seq!['-'] + r9;
    let r11 = b + r10;
    let r12 = seq!['-'] + r11;
    let l1 = a + seq!['-'];
    let l2 = l1 + b;
    let l3 = l2 + seq!['-'];
    let l4 = l3 + c;
    let l5 = l4 + seq!['T'];
    let l6 = l5 + d;
    let l7 = l6 + seq![':'];
    let l8 = l7 + e;
    let l9 = l8 + seq![':'];
    let l10 = l9 + f;
    let l11 = l10 + seq!['.'];
    let l12 = l11 + g;
    assert(l12 + seq!['Z'] =~= l11 + r1);
    assert(l11 + r1 =~= l10 + r2);
    assert(l10 + r2 =~= l9 + r3);
    assert(l9 + r3 =~= l8 + r4);
    assert(l8 + r4 =~= l7 + r5);
    assert(l7 + r5 =~= l6 + r6);
    assert(l6 + r6 =~= l5 + r7);
    assert(l5 + r7 =~= l4 + r8);
    assert(l4 + r8 =~= l3 + r9);
    assert(l3 + r9 =~= l2 + r10);
    assert(l2 + r10 =~= l1 + r11);
    assert(l1 + r11 =~= a + r12);
}

pub open spec fn is_ascii_alphanumeric(c: char) -> bool {
    ('a' <= c && c <= 'z') || ('A' <= c && c <= 'Z') || ('0' <= c && c <= '9')
}

/// `c` if it may stand in a file name unchanged, else `_`.
pub open spec fn file_char(c: char) -> char {
    if is_ascii_alphanumeric(c) || c == '-' || c == '_' {
        c
    } else {
        '_'
    }
}

pub open spec fn dashboard_word() -> Seq<char> {
    seq!['d', 'a', 's', 'h', 'b', 'o', 'a', 'r', 'd']
}

/// `name` with every character other than ASCII letters, digits, `-` and `_`
/// replaced by `_`; an empty name becomes `dashboard`.
pub open spec fn spec_safe_name(name: Seq<char>) -> Seq<char> {
    if name.len() == 0 {
        dashboard_word()
    } else {
        name.map_values(|c: char| file_char(c))
    }
}

/// A file-name-safe form of a dashboard name.
pub fn safe_name(name: &str) -> (res: String)
    ensures
        res@ == spec_safe_name(name@),
{
    let cs = chars_of(name);
    if cs.len() == 0 {
        let word: Vec<char> = vec!['d', 'a', 's', 'h', 'b', 'o', 'a', 'r', 'd'];
        assert(word@ =~= dashboard_word());
        return string_of(&word);
    }
    let mut out: Vec<char> = Vec::new();
    let mut i: usize = 0;
    while i < cs.len()
        invariant
            i <= cs.len(),
            out@ =~= cs@.take(i as int).map_values(|c: char| file_char(c)),
        decreases cs.len() - i,
    {
        let c = cs[i];
        let keep = ('a' <= c && c <= 'z') || ('A' <= c && c <= 'Z') || ('0' <= c && c <= '9') || c
            == '-' || c == '_';
        if keep {
            out.push(c);
        } else {
            out.push('_');
        }
        i = i + 1;
        assert(cs@.take(i as int).map_values(|c: char| file_char(c)) =~= cs@.take(
            (i - 1) as int,
        ).map_values(|c: char| file_char(c)).push(file_char(c)));
    }
    assert(cs@.take(cs.len() as int) =~= cs@);
    string_of(&out)
}

/// `s` with each `"` doubled.
pub open spec fn double_quotes(s: Seq<char>) -> Seq<char>
    decreases s.len(),
{
    if s.len() == 0 {
        Seq::empty()
    } else if s.last() == '"' {
        double_quotes(s.drop_last()) + seq!['"', '"']
    } else {
        double_quotes(s.drop_last()).push(s.last())
    }
}

pub open spec fn needs_quotes(s: Seq<char>) -> bool {
    s.contains(',') || s.contains('"') || s.contains('\n')
}

/// A CSV field: quoted, with inner quotes doubled, when it holds a comma, a
/// quote or a newline; unchanged otherwise.
pub open spec fn csv_field(s: Seq<char>) -> Seq<char> {
    if needs_quotes(s) {
        seq!['"'] + double_quotes(s) + seq!['"']
    } else {
        s
    }
}

fn escape(value: &str) -> (res: String)
    ensures
        res@ == csv_field(value@),
{
    let cs = chars_of(value);
    let mut quote = false;
    let mut i: usize = 0;
    while i < cs.len()
        invariant
            i <= cs.len(),
            quote == (cs@.take(i as int).contains(',') || cs@.take(i as int).contains('"')
                || cs@.take(i as int).contains('\n')),
        decreases cs.len() - i,
    {
        let c = cs[i];
        proof {
            let t = cs@.take(i as int);
            let t1 = cs@.take(i + 1);
            assert(t1 =~= t.push(c));
            assert forall|x: char| t1.contains(x) <==> (t.contains(x) || x == c) by {
                if t1.contains(x) {
                    let k = choose|k: int| 0 <= k < t1.len() && t1[k] == x;
                    if k < t.len() {
                        assert(t[k] == x);
                    }
                }
                if t.contains(x) {
                    let k = choose|k: int| 0 <= k < t.len() && t[k] == x;
                    assert(t1[k] == x);
                }
                if x == c {
                    assert(t1[i as int] == x);
                }
            }
        }
        if c == ',' || c == '"' || c == '\n' {
            quote = true;
        }
        i = i + 1;
    }
    assert(cs@.take(cs.len() as int) =~= cs@);
    if !quote {
        return string_of(&cs);
    }
    let mut out: Vec<char> = Vec::new();
    out.push('"');
    let mut k: usize = 0;
    while k < cs.len()
        invariant
            k <= cs.len(),
            out@ == seq!['"'] + double_quotes(cs@.take(k as int)),
        decreases cs.len() - k,
    {
        let c = cs[k];
        proof {
            assert(cs@.take(k + 1).drop_last() =~= cs@.take(k as int));
        }
        if c == '"' {
            out.push('"');
            out.push('"');
        } else {
            out.push(c);
        }
        k = k + 1;
        assert(out@ =~= seq!['"'] + double_quotes(cs@.take(k as int)));
    }
    out.push('"');
    string_of(&out)
}

/// One CSV row, as `HEADER` lays out the columns.
pub open spec fn csv_row(
    dashboard: Seq<char>,
    metric_name: Seq<char>,
    unit: Seq<char>,
    at: u64,
    backend_id: u8,
    capability_id: u8,
    metric_id: u16,
    value_text: Seq<char>,
) -> Seq<char> {
    rfc3339(at) + seq![','] + csv_field(dashboard) + seq![','] + decimal(backend_id as nat)
        + seq![','] + decimal(capability_id as nat) + seq![','] + decimal(metric_id as nat)
        + seq![','] + csv_field(metric_name) + seq![','] + value_text + seq![','] + csv_field(
        unit,
    )
}

/// Formats one sample as a CSV row. `value_text` is the sample's value as
/// its `Display` renders it.
pub fn format_row<V>(
    dashboard: &str,
    metric_name: &str,
    unit: &str,
    sample: &Sample<V>,
    value_text: &str,
) -> (res: String)
    ensures
        res@ == csv_row(
            dashboard@,
            metric_name@,
            unit@,
            sample.at,
            sample.backend_id,
            sample.capability_id,
            sample.metric_id,
            value_text@,
        ),
{
    let mut s = format_rfc3339(sample.at);
    s.push(',');
    let d = escape(dashboard);
    push_str(&mut s, d.as_str());
    s.push(',');
    push_decimal(&mut s, sample.backend_id as u64);
    s.push(',');
    push_decimal(&mut s, sample.capability_id as u64);
    s.push(',');
    push_decimal(&mut s, sample.metric_id as u64);
    s.push(',');
    let m = escape(metric_name);
    push_str(&mut s, m.as_str());
    s.push(',');
    push_str(&mut s, value_text);
    s.push(',');
    let u = escape(unit);
    push_str(&mut s, u.as_str());
    proof {
        assert(s@ =~= csv_row(
            dashboard@,
            metric_name@,
            unit@,
            sample.at,
            sample.backend_id,
            sample.capability_id,
            sample.metric_id,
            value_text@,
        ));
    }
    s
}

/// Name of the CSV file a dashboard appends to on the day `now` falls in:
/// `<safe name>-<YYYY-MM-DD>.csv`.
pub open spec fn csv_file_name(name: Seq<char>, now: u64) -> Seq<char> {
    spec_safe_name(name) + seq!['-'] + rfc3339(now).take(10) + seq!['.', 'c', 's', 'v']
}

pub proof fn lemma_rfc3339_len(ms: u64)
    ensures
        rfc3339(ms).len() >= 24,
{
    let secs = ms / 1000;
    let days = secs / 86400;
    let tod = secs % 86400;
    let date = date_of(days as int);
    crate::text::lemma_decimal_nonempty(date.0 as nat);
}

/// The file name, under the exports directory, that `name`'s CSV rows go to
/// at time `now` (milliseconds since the epoch).
pub fn csv_file(name: &str, now: u64) -> (res: String)
    ensures
        res@ == csv_file_name(name@, now),
{
    let mut s = safe_name(name);
    s.push('-');
    let stamp = chars_of(format_rfc3339(now).as_str());
    proof {
        lemma_rfc3339_len(now);
    }
    let mut i: usize = 0;
    let ghost before = s@;
    while i < 10
        invariant
            i <= 10,
            stamp@ == rfc3339(now),
            stamp@.len() >= 24,
            s@ == before + stamp@.take(i as int),
        decreases 10 - i,
    {
        s.push(stamp[i]);
        i = i + 1;
        assert(stamp@.take(i as int) =~= stamp@.take(i - 1).push(stamp@[i - 1]));
    }
    s.push('.');
    s.push('c');
    s.push('s');
    s.push('v');
    assert(s@ =~= csv_file_name(name@, now));
    s
}

/// The points of the ring the table keeps for `id` and `metric_id`; none
/// when it keeps no such ring.
pub open spec fn ring_points<V>(v: Seq<SessionView<V>>, id: u128, metric_id: u16) -> Seq<(u64, V)> {
    match ring_of(v, id, metric_id) {
        Some(r) => r.4,
        None => Seq::empty(),
    }
}

/// The points of a graph's ring as samples of the graph's metric.
pub open spec fn graph_samples<V>(g: GraphSpec, points: Seq<(u64, V)>) -> Seq<Sample<V>> {
    points.map_values(
        |p: (u64, V)|
            Sample {
                at: p.0,
                backend_id: g.backend_id,
                capability_id: g.capability_id,
                metric_id: g.metric_id,
                value: p.1,
            },
    )
}

/// What an export writes for dashboard `id`: the ring of each graph in
/// turn, as samples.
pub open spec fn export_of<V>(v: Seq<SessionView<V>>, id: u128, graphs: Seq<GraphSpec>) -> Seq<Sample<V>>
    decreases graphs.len(),
{
    if graphs.len() == 0 {
        Seq::empty()
    } else {
        export_of(v, id, graphs.drop_last()) + graph_samples(
            graphs.last(),
            ring_points(v, id, graphs.last().metric_id),
        )
    }
}

/// How many points the rings of `graphs` hold together.
pub open spec fn total_points<V>(v: Seq<SessionView<V>>, id: u128, graphs: Seq<GraphSpec>) -> nat
    decreases graphs.len(),
{
    if graphs.len() == 0 {
        0
    } else {
        total_points(v, id, graphs.drop_last()) + ring_points(v, id, graphs.last().metric_id).len()
    }
}

/// An export writes every point of every graph's ring, and nothing else:
/// as many samples as the rings hold together, the points of graph `i`
/// right after those of the graphs before it, each point in ring order as a
/// sample of graph `i`'s metric.
pub proof fn lemma_export_writes_every_ring<V>(v: Seq<SessionView<V>>, id: u128, graphs: Seq<GraphSpec>)
    ensures
        export_of(v, id, graphs).len() == total_points(v, id, graphs),
        forall|i: int, k: int|
            0 <= i < graphs.len() && 0 <= k < ring_points(v, id, graphs[i].metric_id).len() ==> ({
                let p = ring_points(v, id, graphs[i].metric_id)[k];
                #[trigger] export_of(v, id, graphs)[total_points(v, id, graphs.take(i)) + k] == Sample {
                    at: p.0,
                    backend_id: graphs[i].backend_id,
                    capability_id: graphs[i].capability_id,
                    metric_id: graphs[i].metric_id,
                    value: p.1,
                }
            }),
    decreases graphs.len(),
{
    if graphs.len() > 0 {
        let n = graphs.len() - 1;
        let init = graphs.drop_last();
        lemma_export_writes_every_ring(v, id, init);
        let e0 = export_of(v, id, init);
        let last = graphs.last();
        assert(last == graphs[n]);
        let tail = graph_samples(last, ring_points(v, id, last.metric_id));
        let e = export_of(v, id, graphs);
        assert(e == e0 + tail);
        assert forall|i: int, k: int|
            0 <= i < graphs.len() && 0 <= k < ring_points(v, id, graphs[i].metric_id).len() implies ({
                let p = ring_points(v, id, graphs[i].metric_id)[k];
                #[trigger] e[total_points(v, id, graphs.take(i)) + k] == Sample {
                    at: p.0,
                    backend_id: graphs[i].backend_id,
                    capability_id: graphs[i].capability_id,
                    metric_id: graphs[i].metric_id,
                    value: p.1,
                }
            }) by {
            if i < n {
                assert(graphs.take(i) =~= init.take(i));
                assert(init[i] == graphs[i]);
                lemma_total_points_prefix(v, id, init, i);
                assert(total_points(v, id, init.take(i)) + k < e0.len());
            } else {
                assert(graphs.take(i) =~= init);
            }
        }
    }
}

proof fn lemma_total_points_prefix<V>(v: Seq<SessionView<V>>, id: u128, graphs: Seq<GraphSpec>, i: int)
    requires
        0 <= i < graphs.len(),
    ensures
        total_points(v, id, graphs.take(i)) + ring_points(v, id, graphs[i].metric_id).len() <= total_points(
            v,
            id,
            graphs,
        ),
    decreases graphs.len(),
{
    let n = graphs.len() - 1;
    let init = graphs.drop_last();
    assert(graphs.last() == graphs[n]);
    if i < n {
        assert(graphs.take(i) =~= init.take(i));
        assert(init[i] == graphs[i]);
        lemma_total_points_prefix(v, id, init, i);
    } else {
        assert(graphs.take(i) =~= init);
    }
}

/// The samples the `c` key writes for `dashboard`: the current points of
/// each graph's ring, graph by graph.
pub fn export_samples<V: Copy>(dashboard: &Dashboard, sessions: &SessionTable<V>) -> (r: Vec<Sample<V>>)
    ensures
        r@ == export_of(sessions.view(), dashboard.id, dashboard.graphs@),
        r@.len() == total_points(sessions.view(), dashboard.id, dashboard.graphs@),
{
    proof {
        lemma_export_writes_every_ring(sessions.view(), dashboard.id, dashboard.graphs@);
    }
    let mut out: Vec<Sample<V>> = Vec::new();
    let mut i: usize = 0;
    while i < dashboard.graphs.len()
        invariant
            i <= dashboard.graphs@.len(),
            out@ == export_of(sessions.view(), dashboard.id, dashboard.graphs@.take(i as int)),
        decreases dashboard.graphs.len() - i,
    {
        let g = dashboard.graphs[i];
        let points = sessions.points(dashboard.id, g.metric_id);
        let ghost before = out@;
        let ghost all = graph_samples(g, points@);
        let mut k: usize = 0;
        while k < points.len()
            invariant
                k <= points@.len(),
                all == graph_samples(g, points@),
                out@ == before + all.take(k as int),
            decreases points.len() - k,
        {
            let (at, value) = points[k];
            out.push(
                Sample {
                    at,
                    backend_id: g.backend_id,
                    capability_id: g.capability_id,
                    metric_id: g.metric_id,
                    value,
                },
            );
            k = k + 1;
            assert(out@ =~= before + all.take(k as int));
        }
        proof {
            assert(all.take(points@.len() as int) =~= all);
            assert(dashboard.graphs@.take(i + 1).drop_last() =~= dashboard.graphs@.take(i as int));
            assert(dashboard.graphs@.take(i + 1).last() == g);
        }
        i = i + 1;
    }
    assert(dashboard.graphs@.take(dashboard.graphs@.len() as int) =~= dashboard.graphs@);
    out
}

/// Whether a sample is of a metric some graph of `graphs` shows.
pub open spec fn shown_in<V>(graphs: Seq<GraphSpec>) -> spec_fn(Sample<V>) -> bool {
    |s: Sample<V>| has_metric(graphs, s.backend_id, s.capability_id, s.metric_id)
}

/// The samples of `batch` that `dashboard` shows, in order: what a running
/// dashboard that follows CSV appends.
pub fn shown_samples<V: Copy>(dashboard: &Dashboard, batch: &[Sample<V>]) -> (r: Vec<Sample<V>>)
    ensures
        r@ == keep_where(batch@, shown_in::<V>(dashboard.graphs@)),
{
    let ghost p = shown_in::<V>(dashboard.graphs@);
    let mut out: Vec<Sample<V>> = Vec::new();
    let mut i: usize = batch.len();
    assert(batch@.skip(i as int) =~= Seq::<Sample<V>>::empty());
    while i > 0
        invariant
            i <= batch@.len(),
            p == shown_in::<V>(dashboard.graphs@),
            out@ == keep_where(batch@.skip(i as int), p),
        decreases i,
    {
        i = i - 1;
        let s = &batch[i];
        proof {
            assert(batch@.skip(i as int).drop_first() =~= batch@.skip(i + 1));
            assert(batch@.skip(i as int)[0] == batch@[i as int]);
        }
        if dashboard.contains_metric(s.backend_id, s.capability_id, s.metric_id) {
            out.insert(
                0,
                Sample {
                    at: s.at,
                    backend_id: s.backend_id,
                    capability_id: s.capability_id,
                    metric_id: s.metric_id,
                    value: s.value,
                },
            );
            assert(out@ =~= seq![batch@[i as int]] + keep_where(batch@.skip(i + 1), p));
        }
    }
    assert(batch@.skip(0) =~= batch@);
    out
}

} // verus!
