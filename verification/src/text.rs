//! Character-level text helpers shared by the model, the exporters and the
//! views: decimal rendering, whitespace trimming, ASCII case folding and
//! substring search, each stated over `Seq<char>`.
use vstd::prelude::*;

verus! {

/// `String::push` appends one character.
pub assume_specification[ String::push ](s: &mut String, ch: char)
    ensures
        final(s)@ == old(s)@.push(ch),
;

// ---------------------------------------------------------------------------
// Decimal rendering
// ---------------------------------------------------------------------------

/// The ASCII digit for `d` (0..=9).
pub open spec fn digit_char(d: nat) -> char {
    ((d + 48) as u8) as char
}

/// The decimal digits of `n`, most significant first, with no leading zero.
pub open spec fn decimal(n: nat) -> Seq<char>
    decreases n,
{
    if n < 10 {
        seq![digit_char(n)]
    } else {
        decimal(n / 10).push(digit_char(n % 10))
    }
}

/// `n` in decimal, left-padded with zeros to at least `width` characters.
pub open spec fn zero_padded(n: nat, width: nat) -> Seq<char> {
    let digits = decimal(n);
    if digits.len() < width {
        Seq::new((width - digits.len()) as nat, |_i: int| '0') + digits
    } else {
        digits
    }
}

/// A signed integer in decimal, with a leading `-` when negative.
pub open spec fn signed_decimal(n: int) -> Seq<char> {
    if n < 0 {
        seq!['-'] + decimal((-n) as nat)
    } else {
        decimal(n as nat)
    }
}

pub proof fn lemma_decimal_nonempty(n: nat)
    ensures
        decimal(n).len() >= 1,
    decreases n,
{
    if n >= 10 {
        lemma_decimal_nonempty(n / 10);
    }
}

/// `10` to the power `w`.
pub open spec fn pow10(w: nat) -> nat
    decreases w,
{
    if w == 0 {
        1
    } else {
        10 * pow10((w - 1) as nat)
    }
}

/// `c` is an ASCII digit.
pub open spec fn is_digit(c: char) -> bool {
    48 <= (c as u32) <= 57
}

/// Every character of `s` is an ASCII digit.
pub open spec fn all_digits(s: Seq<char>) -> bool {
    forall|i: int| 0 <= i < s.len() ==> is_digit(#[trigger] s[i])
}

/// Text order, as `str` compares: the first differing character decides,
/// and a prefix comes first.
pub open spec fn text_le(a: Seq<char>, b: Seq<char>) -> bool
    decreases a.len(),
{
    if a.len() == 0 {
        true
    } else if b.len() == 0 {
        false
    } else if a[0] != b[0] {
        (a[0] as u32) < (b[0] as u32)
    } else {
        text_le(a.drop_first(), b.drop_first())
    }
}

proof fn lemma_digit_char(d: nat)
    requires
        d < 10,
    ensures
        is_digit(digit_char(d)),
        digit_char(d) as u32 == d + 48,
{
}

proof fn lemma_decimal_digits(n: nat, w: nat)
    requires
        w >= 1,
        n < pow10(w),
    ensures
        decimal(n).len() <= w,
        all_digits(decimal(n)),
    decreases n,
{
    if n < 10 {
        lemma_digit_char(n);
    } else {
        assert(w >= 2) by {
            if w == 1 {
                assert(pow10(0) == 1);
            }
        }
        let w1 = (w - 1) as nat;
        assert(n / 10 < pow10(w1)) by (nonlinear_arith)
            requires
                n < 10 * pow10(w1),
        ;
        lemma_decimal_digits(n / 10, w1);
        lemma_digit_char(n % 10);
        let d = decimal(n);
        assert forall|i: int| 0 <= i < d.len() implies is_digit(#[trigger] d[i]) by {
            if i < d.len() - 1 {
                assert(d[i] == decimal(n / 10)[i]);
            }
        }
    }
}

/// A number below `10^w`, zero-padded to `w` places, takes exactly `w`
/// digits.
pub proof fn lemma_padded_shape(n: nat, w: nat)
    requires
        w >= 1,
        n < pow10(w),
    ensures
        zero_padded(n, w).len() == w,
        all_digits(zero_padded(n, w)),
{
    lemma_decimal_digits(n, w);
    let d = decimal(n);
    let z = zero_padded(n, w);
    if d.len() < w {
        let k = (w - d.len()) as int;
        assert forall|i: int| 0 <= i < z.len() implies is_digit(#[trigger] z[i]) by {
            if i >= k {
                assert(z[i] == d[i - k]);
            } else {
                assert(z[i] == '0');
            }
        }
    }
}

/// The last digit splits off a zero-padded number.
proof fn lemma_padded_split(n: nat, w: nat)
    requires
        w >= 2,
        n < pow10(w),
    ensures
        zero_padded(n, w) == zero_padded(n / 10, (w - 1) as nat) + seq![digit_char(n % 10)],
{
    let w1 = (w - 1) as nat;
    lemma_decimal_digits(n, w);
    lemma_decimal_nonempty(n);
    if n >= 10 {
        assert(n / 10 < pow10(w1)) by (nonlinear_arith)
            requires
                n < 10 * pow10(w1),
        ;
        lemma_decimal_digits(n / 10, w1);
        lemma_decimal_nonempty(n / 10);
        let q = decimal(n / 10);
        assert(decimal(n) == q.push(digit_char(n % 10)));
        if q.len() < w1 {
            assert(zero_padded(n, w) =~= Seq::new((w - decimal(n).len()) as nat, |_i: int| '0') + q
                + seq![digit_char(n % 10)]);
        } else {
            assert(zero_padded(n, w) =~= q + seq![digit_char(n % 10)]);
        }
    } else {
        assert(n / 10 == 0 && n % 10 == n);
        assert(decimal(0) == seq![digit_char(0)]);
        assert(digit_char(0) == '0');
        if w1 > 1 {
            assert(zero_padded(0, w1) =~= Seq::new((w1 - 1) as nat, |_i: int| '0') + seq!['0']);
        } else {
            assert(zero_padded(0, w1) =~= seq!['0']);
        }
        assert(zero_padded(n, w) =~= zero_padded(0, w1) + seq![digit_char(n)]);
    }
}

/// Comparing blocks of equal length: the first blocks decide when they
/// differ, the rest otherwise.
pub proof fn lemma_text_le_blocks(a1: Seq<char>, a2: Seq<char>, r1: Seq<char>, r2: Seq<char>)
    requires
        a1.len() == a2.len(),
    ensures
        text_le(a1 + r1, a2 + r2) == if a1 == a2 {
            text_le(r1, r2)
        } else {
            text_le(a1, a2)
        },
    decreases a1.len(),
{
    if a1.len() == 0 {
        assert(a1 =~= a2);
        assert(a1 + r1 =~= r1);
        assert(a2 + r2 =~= r2);
    } else {
        assert((a1 + r1)[0] == a1[0] && (a2 + r2)[0] == a2[0]);
        if a1[0] == a2[0] {
            lemma_text_le_blocks(a1.drop_first(), a2.drop_first(), r1, r2);
            assert((a1 + r1).drop_first() =~= a1.drop_first() + r1);
            assert((a2 + r2).drop_first() =~= a2.drop_first() + r2);
            if a1.drop_first() =~= a2.drop_first() {
                assert forall|i: int| 0 <= i < a1.len() implies a1[i] == a2[i] by {
                    if i > 0 {
                        assert(a1[i] == a1.drop_first()[i - 1]);
                        assert(a2[i] == a2.drop_first()[i - 1]);
                    }
                }
                assert(a1 =~= a2);
            } else {
                assert(a1 != a2);
            }
        } else {
            assert(a1 != a2);
        }
    }
}

/// Zero-padded to the same width, numbers compare as their texts do.
pub proof fn lemma_padded_order(n1: nat, n2: nat, w: nat)
    requires
        w >= 1,
        n1 < pow10(w),
        n2 < pow10(w),
    ensures
        (zero_padded(n1, w) == zero_padded(n2, w)) <==> n1 == n2,
        text_le(zero_padded(n1, w), zero_padded(n2, w)) <==> n1 <= n2,
    decreases w,
{
    lemma_padded_shape(n1, w);
    lemma_padded_shape(n2, w);
    if w == 1 {
        assert(pow10(1) == 10) by {
            assert(pow10(0) == 1);
        }
        assert(zero_padded(n1, 1) == seq![digit_char(n1)]);
        assert(zero_padded(n2, 1) == seq![digit_char(n2)]);
        lemma_digit_char(n1);
        lemma_digit_char(n2);
        lemma_one_char_le(digit_char(n1), digit_char(n2));
        if n1 != n2 {
            assert(seq![digit_char(n1)][0] != seq![digit_char(n2)][0]);
        }
    } else {
        let w1 = (w - 1) as nat;
        lemma_padded_split(n1, w);
        lemma_padded_split(n2, w);
        assert(n1 / 10 < pow10(w1) && n2 / 10 < pow10(w1)) by (nonlinear_arith)
            requires
                n1 < 10 * pow10(w1),
                n2 < 10 * pow10(w1),
        ;
        lemma_padded_order(n1 / 10, n2 / 10, w1);
        lemma_padded_shape(n1 / 10, w1);
        lemma_padded_shape(n2 / 10, w1);
        let d1 = seq![digit_char(n1 % 10)];
        let d2 = seq![digit_char(n2 % 10)];
        let p1 = zero_padded(n1 / 10, w1);
        let p2 = zero_padded(n2 / 10, w1);
        lemma_text_le_blocks(p1, p2, d1, d2);
        lemma_digit_char(n1 % 10);
        lemma_digit_char(n2 % 10);
        lemma_one_char_le(digit_char(n1 % 10), digit_char(n2 % 10));
        assert(n1 == 10 * (n1 / 10) + n1 % 10 && n2 == 10 * (n2 / 10) + n2 % 10);
        assert((p1 + d1).take(w1 as int) =~= p1);
        assert((p2 + d2).take(w1 as int) =~= p2);
        assert((p1 + d1)[w1 as int] == d1[0]);
        assert((p2 + d2)[w1 as int] == d2[0]);
        if n1 / 10 == n2 / 10 {
            if n1 % 10 != n2 % 10 {
                assert(d1[0] != d2[0]);
                assert(p1 + d1 != p2 + d2);
            }
        } else {
            assert(p1 != p2);
            assert(p1 + d1 != p2 + d2);
        }
    }
}

/// One character against another.
proof fn lemma_one_char_le(x: char, y: char)
    ensures
        text_le(seq![x], seq![y]) <==> (x as u32) <= (y as u32),
        (seq![x] == seq![y]) <==> x == y,
{
    assert(seq![x].drop_first() =~= Seq::<char>::empty());
    assert(seq![y].drop_first() =~= Seq::<char>::empty());
    assert(text_le(Seq::<char>::empty(), Seq::<char>::empty()));
    if x != y {
        assert(seq![x][0] != seq![y][0]);
        assert((x as u32) != (y as u32));
    }
}

fn digit(d: u64) -> (c: char)
    requires
        d < 10,
    ensures
        c == digit_char(d as nat),
{
    let b: u8 = (d as u8) + 48;
    b as char
}

/// The decimal digits of `n`.
pub fn decimal_chars(n: u64) -> (res: Vec<char>)
    ensures
        res@ == decimal(n as nat),
    decreases n,
{
    if n < 10 {
        let mut v: Vec<char> = Vec::new();
        v.push(digit(n));
        v
    } else {
        let mut v = decimal_chars(n / 10);
        v.push(digit(n % 10));
        v
    }
}

/// Appends every character of `cs` to `s`.
pub fn push_all(s: &mut String, cs: &Vec<char>)
    ensures
        final(s)@ == old(s)@ + cs@,
{
    let mut i: usize = 0;
    while i < cs.len()
        invariant
            i <= cs.len(),
            s@ == old(s)@ + cs@.take(i as int),
        decreases cs.len() - i,
    {
        s.push(cs[i]);
        i = i + 1;
        assert(cs@.take(i as int) == cs@.take(i - 1).push(cs@[i - 1]));
    }
    assert(cs@.take(cs.len() as int) == cs@);
}

/// Appends the characters of `t` to `s`.
pub fn push_str(s: &mut String, t: &str)
    ensures
        final(s)@ == old(s)@ + t@,
{
    let cs = chars_of(t);
    push_all(s, &cs);
}

/// Appends `n` in decimal to `s`.
pub fn push_decimal(s: &mut String, n: u64)
    ensures
        final(s)@ == old(s)@ + decimal(n as nat),
{
    let cs = decimal_chars(n);
    push_all(s, &cs);
}

/// Appends `n` in decimal, zero-padded to `width` characters, to `s`.
pub fn push_padded(s: &mut String, n: u64, width: usize)
    ensures
        final(s)@ == old(s)@ + zero_padded(n as nat, width as nat),
{
    let cs = decimal_chars(n);
    let ghost before = s@;
    if cs.len() < width {
        let pad = width - cs.len();
        let mut i: usize = 0;
        while i < pad
            invariant
                i <= pad,
                pad == width - cs.len(),
                s@ == before + Seq::new(i as nat, |_j: int| '0'),
            decreases pad - i,
        {
            s.push('0');
            i = i + 1;
            assert(Seq::new(i as nat, |_j: int| '0') =~= Seq::new((i - 1) as nat, |_j: int| '0').push(
                '0',
            ));
        }
        push_all(s, &cs);
        assert(s@ =~= before + zero_padded(n as nat, width as nat));
    } else {
        push_all(s, &cs);
    }
}

/// Appends a signed integer in decimal to `s`.
pub fn push_signed(s: &mut String, n: i64)
    ensures
        final(s)@ == old(s)@ + signed_decimal(n as int),
{
    if n < 0 {
        s.push('-');
        let magnitude: u64 = if n == i64::MIN {
            9223372036854775808u64
        } else {
            (-n) as u64
        };
        let ghost mid = s@;
        push_decimal(s, magnitude);
        assert(s@ =~= old(s)@ + signed_decimal(n as int));
    } else {
        push_decimal(s, n as u64);
    }
}

// ---------------------------------------------------------------------------
// Characters of a string
// ---------------------------------------------------------------------------

/// The characters of `s`, in order.
pub fn chars_of(s: &str) -> (res: Vec<char>)
    ensures
        res@ == s@,
{
    let mut res: Vec<char> = Vec::new();
    for c in it: s.chars()
        invariant
            res@ == it.seq().take(it.index() as int),
    {
        res.push(c);
    }
    res
}

/// A string holding exactly the characters `cs`.
pub fn string_of(cs: &Vec<char>) -> (res: String)
    ensures
        res@ == cs@,
{
    let mut res = String::new();
    push_all(&mut res, cs);
    res
}

/// A copy of `s` with the same characters.
pub fn copy_string(s: &String) -> (res: String)
    ensures
        res@ == s@,
{
    s.clone()
}

// ---------------------------------------------------------------------------
// Whitespace
// ---------------------------------------------------------------------------

/// Unicode `White_Space`, the set `char::is_whitespace` tests.
pub open spec fn is_white(c: char) -> bool {
    let u = c as u32;
    ||| 9 <= u <= 13
    ||| u == 32
    ||| u == 0x85
    ||| u == 0xA0
    ||| u == 0x1680
    ||| 0x2000 <= u <= 0x200A
    ||| u == 0x2028
    ||| u == 0x2029
    ||| u == 0x202F
    ||| u == 0x205F
    ||| u == 0x3000
}

pub fn is_white_exec(c: char) -> (b: bool)
    ensures
        b == is_white(c),
{
    let u = c as u32;
    (9 <= u && u <= 13) || u == 32 || u == 0x85 || u == 0xA0 || u == 0x1680 || (0x2000 <= u && u
        <= 0x200A) || u == 0x2028 || u == 0x2029 || u == 0x202F || u == 0x205F || u == 0x3000
}

/// `s` without its leading whitespace.
pub open spec fn trim_start(s: Seq<char>) -> Seq<char>
    decreases s.len(),
{
    if s.len() > 0 && is_white(s[0]) {
        trim_start(s.drop_first())
    } else {
        s
    }
}

/// `s` without its trailing whitespace.
pub open spec fn trim_end(s: Seq<char>) -> Seq<char>
    decreases s.len(),
{
    if s.len() > 0 && is_white(s.last()) {
        trim_end(s.drop_last())
    } else {
        s
    }
}

/// `s` without leading and trailing whitespace, as `str::trim` gives it.
pub open spec fn trimmed(s: Seq<char>) -> Seq<char> {
    trim_end(trim_start(s))
}

proof fn lemma_trim_start_skip(s: Seq<char>, i: int)
    requires
        0 <= i <= s.len(),
        forall|k: int| 0 <= k < i ==> is_white(#[trigger] s[k]),
    ensures
        trim_start(s) == trim_start(s.subrange(i, s.len() as int)),
    decreases i,
{
    if i > 0 {
        assert(s.drop_first() =~= s.subrange(1, s.len() as int));
        lemma_trim_start_skip(s.drop_first(), i - 1);
        assert(s.drop_first().subrange(i - 1, s.drop_first().len() as int) =~= s.subrange(
            i,
            s.len() as int,
        ));
    } else {
        assert(s.subrange(0, s.len() as int) =~= s);
    }
}

proof fn lemma_trim_end_take(s: Seq<char>, j: int)
    requires
        0 <= j <= s.len(),
        forall|k: int| j <= k < s.len() ==> is_white(#[trigger] s[k]),
    ensures
        trim_end(s) == trim_end(s.subrange(0, j)),
    decreases s.len() - j,
{
    if j < s.len() {
        assert(s.drop_last() =~= s.subrange(0, s.len() - 1));
        lemma_trim_end_take(s.drop_last(), j);
        assert(s.drop_last().subrange(0, j) =~= s.subrange(0, j));
    } else {
        assert(s.subrange(0, s.len() as int) =~= s);
    }
}

/// The characters of `s` without leading and trailing whitespace.
pub fn trim_chars(s: &Vec<char>) -> (res: Vec<char>)
    ensures
        res@ == trimmed(s@),
{
    let n = s.len();
    let mut i: usize = 0;
    while i < n && is_white_exec(s[i])
        invariant
            i <= n,
            n == s.len(),
            forall|k: int| 0 <= k < i ==> is_white(#[trigger] s@[k]),
        decreases n - i,
    {
        i = i + 1;
    }
    proof {
        lemma_trim_start_skip(s@, i as int);
    }
    let ghost rest = s@.subrange(i as int, n as int);
    assert(trim_start(rest) == rest);
    let mut j: usize = n;
    while j > i && is_white_exec(s[j - 1])
        invariant
            i <= j <= n,
            n == s.len(),
            forall|k: int| j <= k < n ==> is_white(#[trigger] s@[k]),
        decreases j,
    {
        j = j - 1;
    }
    proof {
        let r = s@.subrange(i as int, n as int);
        assert forall|k: int| j - i <= k < r.len() implies is_white(#[trigger] r[k]) by {
            assert(r[k] == s@[k + i]);
        }
        lemma_trim_end_take(r, j - i);
        let t = r.subrange(0, j - i);
        assert(t =~= s@.subrange(i as int, j as int));
        if t.len() > 0 {
            assert(t.last() == s@[j - 1]);
        }
        assert(trim_end(t) == t);
    }
    let mut res: Vec<char> = Vec::new();
    let mut k: usize = i;
    while k < j
        invariant
            i <= k <= j,
            j <= n,
            n == s.len(),
            res@ == s@.subrange(i as int, k as int),
        decreases j - k,
    {
        res.push(s[k]);
        k = k + 1;
        assert(res@ =~= s@.subrange(i as int, k as int));
    }
    res
}

// ---------------------------------------------------------------------------
// ASCII case
// ---------------------------------------------------------------------------

/// `c` with an ASCII upper-case letter mapped to lower case.
pub open spec fn ascii_lower(c: char) -> char {
    if 'A' <= c && c <= 'Z' {
        ((c as u32) + 32) as char
    } else {
        c
    }
}

pub open spec fn lower_seq(s: Seq<char>) -> Seq<char> {
    s.map_values(|c: char| ascii_lower(c))
}

pub fn ascii_lower_exec(c: char) -> (r: char)
    ensures
        r == ascii_lower(c),
{
    if 'A' <= c && c <= 'Z' {
        let b: u8 = (c as u8) + 32;
        b as char
    } else {
        c
    }
}

pub fn lower_chars(s: &Vec<char>) -> (res: Vec<char>)
    ensures
        res@ == lower_seq(s@),
{
    let mut res: Vec<char> = Vec::new();
    let mut i: usize = 0;
    while i < s.len()
        invariant
            i <= s.len(),
            res@ == lower_seq(s@.take(i as int)),
        decreases s.len() - i,
    {
        res.push(ascii_lower_exec(s[i]));
        i = i + 1;
        assert(res@ =~= lower_seq(s@.take(i as int)));
    }
    assert(s@.take(s.len() as int) =~= s@);
    res
}

/// `a` and `b` are equal once ASCII letters are folded to lower case.
pub open spec fn eq_ignore_ascii_case(a: Seq<char>, b: Seq<char>) -> bool {
    lower_seq(a) == lower_seq(b)
}

pub fn eq_chars(a: &Vec<char>, b: &Vec<char>) -> (r: bool)
    ensures
        r == (a@ == b@),
{
    if a.len() != b.len() {
        return false;
    }
    let mut i: usize = 0;
    while i < a.len()
        invariant
            i <= a.len(),
            a.len() == b.len(),
            forall|k: int| 0 <= k < i ==> a@[k] == b@[k],
        decreases a.len() - i,
    {
        if a[i] != b[i] {
            return false;
        }
        i = i + 1;
    }
    assert(a@ =~= b@);
    true
}

// ---------------------------------------------------------------------------
// Substring search
// ---------------------------------------------------------------------------

/// `pat` occurs in `s` starting at index `i`.
pub open spec fn occurs_at(s: Seq<char>, pat: Seq<char>, i: int) -> bool {
    0 <= i && i + pat.len() <= s.len() && s.subrange(i, i + pat.len()) == pat
}

/// `pat` occurs somewhere in `s`.
pub open spec fn has_substring(s: Seq<char>, pat: Seq<char>) -> bool {
    exists|i: int| occurs_at(s, pat, i)
}

fn matches_at(s: &Vec<char>, pat: &Vec<char>, i: usize) -> (r: bool)
    requires
        i + pat.len() <= s.len(),
    ensures
        r == occurs_at(s@, pat@, i as int),
{
    let mut k: usize = 0;
    while k < pat.len()
        invariant
            k <= pat.len(),
            i + pat.len() <= s.len(),
            forall|m: int| 0 <= m < k ==> s@[i + m] == pat@[m],
        decreases pat.len() - k,
    {
        if s[i + k] != pat[k] {
            assert(s@.subrange(i as int, i + pat.len())[k as int] != pat@[k as int]);
            return false;
        }
        k = k + 1;
    }
    assert(s@.subrange(i as int, i + pat.len()) =~= pat@);
    true
}

/// Whether `pat` occurs in `s`.
pub fn contains_chars(s: &Vec<char>, pat: &Vec<char>) -> (r: bool)
    ensures
        r == has_substring(s@, pat@),
{
    if pat.len() > s.len() {
        assert(forall|i: int| !occurs_at(s@, pat@, i));
        return false;
    }
    if pat.len() == 0 {
        assert(s@.subrange(0, 0) =~= pat@);
        assert(occurs_at(s@, pat@, 0));
        return true;
    }
    let last = s.len() - pat.len();
    let mut i: usize = 0;
    while i <= last
        invariant
            last == s.len() - pat.len(),
            0 < pat.len() <= s.len(),
            forall|m: int| 0 <= m < i ==> !occurs_at(s@, pat@, m),
        decreases last + 1 - i,
    {
        if matches_at(s, pat, i) {
            return true;
        }
        i = i + 1;
    }
    assert(forall|m: int| !occurs_at(s@, pat@, m));
    false
}

} // verus!
