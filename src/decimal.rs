//! Exact decimal numbers: the distance read from the ephemeris tool and the
//! round-trip delay derived from it.
use vstd::prelude::*;
use vstd::string::*;

verus! {

/// A distance is below `10^MANTISSA_DIGITS` once its decimal point is
/// taken out: room for the factor 120 of a round trip and for four more
/// decimals in a reply, within `u128`.
pub const MANTISSA_DIGITS: u32 = 32;

/// Most decimals that a distance may carry.
pub const MAX_SCALE: u32 = 36;

/// A distance is below `10^INT_DIGITS` light-minutes. Its round trip, from
/// `1.2 * 10^17` ms (3.8 million years) on, would otherwise end past every
/// deadline that a calendar time can hold (about 262,000 years either side
/// of the epoch).
pub const INT_DIGITS: u32 = 12;

/// Decimals that a distance keeps; further digits are cut off.
pub const MAX_DECIMALS: u32 = 20;

/// Why a token gives no distance.
#[derive(Clone, Copy, Debug, PartialEq, Eq, Structural)]
pub enum DistanceError {
    /// The token is no floating-point number.
    Invalid,
    /// The number is infinite, not a number, or at least `10^INT_DIGITS`
    /// light-minutes: no deadline can be computed for it.
    OutOfRange,
}

/// `(-1)^negative * mantissa / 10^scale`.
#[derive(Clone, Copy, Debug, PartialEq, Eq, Structural)]
pub struct Decimal {
    pub negative: bool,
    pub mantissa: u128,
    pub scale: u32,
}

pub open spec fn pow10(n: nat) -> nat
    decreases n,
{
    if n == 0 {
        1
    } else {
        10 * pow10((n - 1) as nat)
    }
}

pub proof fn lemma_pow10_pos(n: nat)
    ensures
        pow10(n) >= 1,
    decreases n,
{
    if n > 0 {
        lemma_pow10_pos((n - 1) as nat);
    }
}

pub proof fn lemma_pow10_mono(a: nat, b: nat)
    requires
        a <= b,
    ensures
        pow10(a) <= pow10(b),
    decreases b,
{
    if a < b {
        lemma_pow10_mono(a, (b - 1) as nat);
    }
}

pub proof fn lemma_pow10_values()
    ensures
        pow10(4) == 10000nat,
        pow10(32) == 100000000000000000000000000000000nat,
        pow10(36) == 1000000000000000000000000000000000000nat,
        pow10(38) == 100000000000000000000000000000000000000nat,
{
    reveal_with_fuel(pow10, 39);
}

pub proof fn lemma_pow10_add(a: nat, b: nat)
    ensures
        pow10(a + b) == pow10(a) * pow10(b),
    decreases b,
{
    if b == 0 {
        assert(pow10(b) == 1);
        assert(a + b == a);
    } else {
        lemma_pow10_add(a, (b - 1) as nat);
        assert((a + b - 1) as nat == a + (b - 1) as nat);
        assert(pow10(a) * (10 * pow10((b - 1) as nat)) == 10 * (pow10(a) * pow10(
            (b - 1) as nat,
        ))) by (nonlinear_arith);
    }
}

/// `10^n` for the exponents that the numbers here use.
pub fn pow10_exec(n: u32) -> (r: u128)
    requires
        n <= 38,
    ensures
        r == pow10(n as nat),
{
    let mut r: u128 = 1;
    let mut i: u32 = 0;
    while i < n
        invariant
            i <= n <= 38,
            r == pow10(i as nat),
        decreases n - i,
    {
        proof {
            lemma_pow10_mono((i + 1) as nat, 38);
            lemma_pow10_values();
        }
        r = r * 10;
        i = i + 1;
    }
    r
}

impl Decimal {
    /// The numbers this library computes with: a distance, or a distance
    /// times 120.
    pub open spec fn wf(&self) -> bool {
        &&& self.scale <= MAX_SCALE
        &&& self.mantissa <= 120 * pow10(MANTISSA_DIGITS as nat)
    }
}

/// The round-trip delay in seconds for a one-way distance in light-minutes:
/// sixty seconds a minute, there and back.
pub open spec fn round_trip_of(d: Decimal) -> Decimal {
    Decimal { negative: d.negative, mantissa: (d.mantissa * 120) as u128, scale: d.scale }
}

/// A distance: below `10^MANTISSA_DIGITS` without its decimal point, with
/// at most `MAX_SCALE` decimals.
pub open spec fn is_distance(d: Decimal) -> bool {
    d.scale <= MAX_SCALE && d.mantissa < pow10(MANTISSA_DIGITS as nat)
}

/// Round-trip seconds for a one-way distance in light-minutes.
pub fn round_trip_seconds(d: &Decimal) -> (r: Decimal)
    requires
        is_distance(*d),
    ensures
        r == round_trip_of(*d),
        r.wf(),
{
    proof {
        lemma_pow10_values();
    }
    Decimal { negative: d.negative, mantissa: d.mantissa * 120, scale: d.scale }
}

/// Whole milliseconds of `d` seconds, truncated toward zero, signed.
pub open spec fn whole_millis(d: Decimal) -> int {
    let ms: int = (d.mantissa * 1000) as int / pow10(d.scale as nat) as int;
    if d.negative {
        -ms
    } else {
        ms
    }
}

/// The instant, in milliseconds since the epoch, at which a reply to a
/// message created at `created_millis` falls due.
pub open spec fn deadline_of(created_millis: int, round_trip: Decimal) -> int {
    created_millis + whole_millis(round_trip)
}

/// Deadline of a reply: creation time plus the delay rounded to whole
/// milliseconds.
pub fn deadline_millis(created_millis: i64, round_trip: &Decimal) -> (r: i128)
    requires
        round_trip.wf(),
    ensures
        r == deadline_of(created_millis as int, *round_trip),
{
    proof {
        lemma_pow10_values();
        lemma_pow10_pos(round_trip.scale as nat);
    }
    let p = pow10_exec(round_trip.scale);
    let ms = (round_trip.mantissa * 1000) / p;
    proof {
        assert(ms <= round_trip.mantissa * 1000) by (nonlinear_arith)
            requires
                ms == (round_trip.mantissa * 1000) / (p as int),
                p >= 1,
        ;
    }
    let ms = ms as i128;
    if round_trip.negative {
        created_millis as i128 - ms
    } else {
        created_millis as i128 + ms
    }
}

pub open spec fn is_digit(c: char) -> bool {
    48 <= c as u32 && c as u32 <= 57
}

pub open spec fn digit_of(c: char) -> nat {
    (c as u32 - 48) as nat
}

/// First index from `i` on that does not hold an ASCII digit.
pub open spec fn digits_end(s: Seq<char>, i: int) -> int
    decreases s.len() - i,
{
    if 0 <= i < s.len() && is_digit(s[i]) {
        digits_end(s, i + 1)
    } else {
        i
    }
}

/// The number that a run of ASCII digits writes in base ten.
pub open spec fn digits_value(s: Seq<char>) -> nat
    decreases s.len(),
{
    if s.len() == 0 {
        0
    } else {
        digits_value(s.drop_last()) * 10 + digit_of(s.last())
    }
}


pub open spec fn is_exp_mark(c: char) -> bool {
    c == 'e' || c == 'E'
}

/// `c` is the lower-case ASCII letter `w`, in either case.
pub open spec fn same_letter(c: char, w: char) -> bool {
    c == w || (65 <= c as u32 && c as u32 <= 90 && c as u32 + 32 == w as u32)
}

/// `s` spells the lower-case word `w`, letters in either case.
pub open spec fn is_word(s: Seq<char>, w: Seq<char>) -> bool {
    s.len() == w.len() && forall|i: int| 0 <= i < s.len() ==> same_letter(s[i], #[trigger] w[i])
}

/// `m * 10^shift`, cut down to an integer where `shift` is negative.
pub open spec fn shifted(m: nat, shift: int) -> nat {
    if shift >= 0 {
        m * pow10(shift as nat)
    } else {
        m / pow10((-shift) as nat)
    }
}

pub proof fn lemma_shifted_zero(m: nat)
    ensures
        shifted(m, 0) == m,
{
    assert(pow10(0) == 1);
    assert(m * 1 == m);
}

/// The distance `±m / 10^k`: exact with up to `MAX_DECIMALS` decimals,
/// otherwise cut to `MAX_DECIMALS` decimals (toward zero);
/// `OutOfRange` from `10^INT_DIGITS` on.
pub open spec fn place(negative: bool, m: nat, k: int) -> Result<Decimal, DistanceError> {
    let s: int = if k < 0 {
        0
    } else if k > MAX_DECIMALS {
        MAX_DECIMALS as int
    } else {
        k
    };
    let n = shifted(m, s - k);
    if n < pow10((INT_DIGITS + s) as nat) {
        Ok(Decimal { negative, mantissa: n as u128, scale: s as u32 })
    } else {
        Err(DistanceError::OutOfRange)
    }
}

/// Where the parts of a distance token lie: after an optional sign, the
/// integer digits `[b, a)`, the fraction digits `[fs, fe)`, and the
/// exponent digits from `xs` on when there is an exponent.
pub open spec fn token_parts(t: Seq<char>) -> (int, int, int, int, int) {
    let n = t.len() as int;
    let signed = n > 0 && (t[0] == '-' || t[0] == '+');
    let b: int = if signed {
        1
    } else {
        0
    };
    let a = digits_end(t, b);
    let fs = if a < n && t[a] == '.' {
        a + 1
    } else {
        a
    };
    let fe = digits_end(t, fs);
    let xs = if fe + 1 < n && (t[fe + 1] == '-' || t[fe + 1] == '+') {
        fe + 2
    } else {
        fe + 1
    };
    (b, a, fs, fe, xs)
}

/// The digits of a distance token, decimal point taken out.
pub open spec fn token_digits(t: Seq<char>) -> Seq<char> {
    let (b, a, fs, fe, xs) = token_parts(t);
    t.subrange(b, a) + t.subrange(fs, fe)
}

/// A distance token, in the syntax of `f64`'s `from_str`: an optional sign,
/// then `inf`, `infinity` or `nan` in any case, or digits with at most one
/// decimal point and at least one digit, then an optional exponent (`e` or
/// `E`, an optional sign, digits). `Invalid` where the syntax fails; the
/// value otherwise, as `place` holds it.
pub open spec fn parse_decimal_spec(t: Seq<char>) -> Result<Decimal, DistanceError> {
    let n = t.len() as int;
    let (b, a, fs, fe, xs) = token_parts(t);
    let negative = b == 1 && t[0] == '-';
    let rest = t.subrange(b, n);
    if is_word(rest, "inf"@) || is_word(rest, "infinity"@) || is_word(rest, "nan"@) {
        Err(DistanceError::OutOfRange)
    } else {
        let has_exp = fe < n && is_exp_mark(t[fe]);
        let syntax_ok = token_digits(t).len() >= 1 && (fe == n || (has_exp && xs < n
            && digits_end(t, xs) == n));
        if !syntax_ok {
            Err(DistanceError::Invalid)
        } else {
            let ev: int = if has_exp {
                digits_value(t.subrange(xs, n)) as int
            } else {
                0
            };
            let e: int = if has_exp && xs == fe + 2 && t[fe + 1] == '-' {
                -ev
            } else {
                ev
            };
            place(negative, digits_value(token_digits(t)), (fe - fs) - e)
        }
    }
}

pub proof fn lemma_digits_end_bounds(s: Seq<char>, i: int)
    requires
        0 <= i <= s.len(),
    ensures
        i <= digits_end(s, i) <= s.len(),
        forall|k: int| i <= k < digits_end(s, i) ==> is_digit(#[trigger] s[k]),
    decreases s.len() - i,
{
    if i < s.len() && is_digit(s[i]) {
        lemma_digits_end_bounds(s, i + 1);
    }
}

/// More digits never make a smaller number.
pub proof fn lemma_digits_value_mono(p: Seq<char>, q: Seq<char>)
    ensures
        digits_value(p + q) >= digits_value(p),
    decreases q.len(),
{
    if q.len() == 0 {
        assert(p + q =~= p);
    } else {
        lemma_digits_value_mono(p, q.drop_last());
        assert((p + q).drop_last() =~= p + q.drop_last());
    }
}

/// Digits after `p` shift it by one place each.
pub proof fn lemma_digits_value_split(p: Seq<char>, q: Seq<char>)
    ensures
        digits_value(p + q) == digits_value(p) * pow10(q.len()) + digits_value(q),
    decreases q.len(),
{
    if q.len() == 0 {
        assert(p + q =~= p);
        assert(pow10(0) == 1);
        assert(digits_value(q) == 0);
    } else {
        let q0 = q.drop_last();
        lemma_digits_value_split(p, q0);
        assert((p + q).drop_last() =~= p + q0);
        assert((p + q).last() == q.last());
        assert(pow10(q.len()) == 10 * pow10(q0.len()));
        let x = digits_value(p);
        let y = digits_value(q0);
        let d = digit_of(q.last());
        assert((x * pow10(q0.len()) + y) * 10 + d == x * (10 * pow10(q0.len())) + (y * 10 + d))
            by (nonlinear_arith);
    }
}

pub proof fn lemma_digits_value_bound(q: Seq<char>)
    requires
        forall|k: int| 0 <= k < q.len() ==> is_digit(#[trigger] q[k]),
    ensures
        digits_value(q) < pow10(q.len()),
    decreases q.len(),
{
    if q.len() > 0 {
        let p = q.drop_last();
        assert(forall|k: int| 0 <= k < p.len() ==> #[trigger] p[k] == q[k]);
        lemma_digits_value_bound(p);
        assert(is_digit(q[q.len() - 1]));
        assert(pow10(q.len()) == 10 * pow10(p.len()));
        assert(digits_value(p) * 10 + digit_of(q.last()) < 10 * pow10(p.len())) by (nonlinear_arith)
            requires
                digits_value(p) < pow10(p.len()),
                digit_of(q.last()) < 10,
        ;
    }
}

/// Every number that a distance token writes is a distance.
pub proof fn lemma_parsed_is_distance(t: Seq<char>)
    ensures
        parse_decimal_spec(t) matches Ok(d) ==> is_distance(d),
{
    lemma_pow10_values();
    if let Ok(d) = parse_decimal_spec(t) {
        lemma_pow10_mono((INT_DIGITS + d.scale) as nat, MANTISSA_DIGITS as nat);
    }
}

/// Whether `t[from..]` spells the lower-case word `w`.
fn word_at(t: &str, from: usize, w: &str) -> (r: bool)
    requires
        from <= t@.len(),
    ensures
        r == is_word(t@.subrange(from as int, t@.len() as int), w@),
{
    let n = t.unicode_len();
    let m = w.unicode_len();
    let ghost rest = t@.subrange(from as int, n as int);
    if n - from != m {
        return false;
    }
    let mut i: usize = 0;
    while i < m
        invariant
            n == t@.len(),
            m == w@.len(),
            n - from == m,
            rest == t@.subrange(from as int, n as int),
            0 <= i <= m,
            forall|j: int| 0 <= j < i ==> same_letter(rest[j], #[trigger] w@[j]),
        decreases m - i,
    {
        let c = t.get_char(from + i) as u32;
        let x = w.get_char(i) as u32;
        if !(c == x || (65 <= c && c <= 90 && c + 32 == x)) {
            assert(!same_letter(rest[i as int], w@[i as int]));
            return false;
        }
        i = i + 1;
    }
    true
}

/// End of the run of digits of `t` from `i`.
fn digits_run_end(t: &str, i: usize) -> (r: usize)
    requires
        i <= t@.len(),
    ensures
        r == digits_end(t@, i as int),
        i <= r <= t@.len(),
{
    let n = t.unicode_len();
    let mut j = i;
    while j < n && 48 <= t.get_char(j) as u32 && t.get_char(j) as u32 <= 57
        invariant
            n == t@.len(),
            i <= j <= n,
            digits_end(t@, j as int) == digits_end(t@, i as int),
        decreases n - j,
    {
        j = j + 1;
    }
    j
}

/// The value of the first `count` digits of `t[b..a] + t[fs..fe]`;
/// `None` once it reaches `cap`.
fn prefix_value(t: &str, b: usize, a: usize, fs: usize, fe: usize, count: usize, cap: u128) -> (r:
    Option<u128>)
    requires
        b <= a <= fs <= fe <= t@.len(),
        count <= (a - b) + (fe - fs),
        1 <= cap <= pow10(MANTISSA_DIGITS as nat),
        forall|k: int| b <= k < a ==> is_digit(#[trigger] t@[k]),
        forall|k: int| fs <= k < fe ==> is_digit(#[trigger] t@[k]),
    ensures
        ({
            let d = (t@.subrange(b as int, a as int) + t@.subrange(fs as int, fe as int)).take(
                count as int,
            );
            match r {
                Some(v) => v == digits_value(d) && v < cap,
                None => digits_value(d) >= cap,
            }
        }),
{
    let ghost dd = t@.subrange(b as int, a as int) + t@.subrange(fs as int, fe as int);
    let mut m: u128 = 0;
    let mut i: usize = 0;
    proof {
        lemma_pow10_values();
        assert(dd.take(0) =~= Seq::<char>::empty());
        reveal_with_fuel(digits_value, 1);
    }
    while i < count
        invariant
            dd == t@.subrange(b as int, a as int) + t@.subrange(fs as int, fe as int),
            b <= a <= fs <= fe <= t@.len(),
            count <= dd.len(),
            0 <= i <= count,
            m == digits_value(dd.take(i as int)),
            m < cap,
            cap <= pow10(MANTISSA_DIGITS as nat),
            forall|k: int| b <= k < a ==> is_digit(#[trigger] t@[k]),
            forall|k: int| fs <= k < fe ==> is_digit(#[trigger] t@[k]),
        decreases count - i,
    {
        let c = if i < a - b {
            t.get_char(b + i)
        } else {
            t.get_char(fs + (i - (a - b)))
        };
        proof {
            lemma_pow10_values();
            assert(c == dd[i as int]);
            if i < a - b {
                assert(is_digit(t@[b + i]));
            } else {
                assert(is_digit(t@[fs + (i - (a - b))]));
            }
            assert(dd.take(i as int + 1).drop_last() =~= dd.take(i as int));
        }
        let d = c as u32 - 48;
        if m * 10 + d as u128 >= cap {
            proof {
                assert(dd.take(i as int + 1) + dd.subrange(i as int + 1, count as int) =~= dd.take(
                    count as int,
                ));
                lemma_digits_value_mono(dd.take(i as int + 1), dd.subrange(i as int + 1, count as int));
            }
            return None;
        }
        m = m * 10 + d as u128;
        i = i + 1;
    }
    Some(m)
}

/// The value of the exponent digits `t[xs..]`, or `None` once it reaches
/// `cap`.
fn exponent_value(t: &str, xs: usize, cap: u128) -> (r: Option<u128>)
    requires
        xs <= t@.len(),
        digits_end(t@, xs as int) == t@.len(),
        1 <= cap <= pow10(MANTISSA_DIGITS as nat),
    ensures
        match r {
            Some(v) => v == digits_value(t@.subrange(xs as int, t@.len() as int)) && v < cap,
            None => digits_value(t@.subrange(xs as int, t@.len() as int)) >= cap,
        },
{
    let n = t.unicode_len();
    proof {
        lemma_digits_end_bounds(t@, xs as int);
        assert(t@.subrange(xs as int, n as int) + t@.subrange(n as int, n as int) =~= t@.subrange(
            xs as int,
            n as int,
        ));
        assert((t@.subrange(xs as int, n as int) + t@.subrange(n as int, n as int)).take(
            (n - xs) as int,
        ) =~= t@.subrange(xs as int, n as int));
    }
    prefix_value(t, xs, n, n, n, n - xs, cap)
}

/// Reads a distance token such as `4.5`, `-0.25`, `12` or `1.2E+01`; see
/// `parse_decimal_spec` for what it gives.
#[verifier::rlimit(100)]
pub fn parse_decimal(t: &str) -> (r: Result<Decimal, DistanceError>)
    ensures
        r == parse_decimal_spec(t@),
        r matches Ok(d) ==> is_distance(d),
{
    proof {
        lemma_parsed_is_distance(t@);
        reveal_strlit("inf");
        reveal_strlit("infinity");
        reveal_strlit("nan");
    }
    let n = t.unicode_len();
    let mut b: usize = 0;
    let mut negative = false;
    if n > 0 {
        let c = t.get_char(0);
        if c == '-' || c == '+' {
            b = 1;
            negative = c == '-';
        }
    }
    if word_at(t, b, "inf") || word_at(t, b, "infinity") || word_at(t, b, "nan") {
        return Err(DistanceError::OutOfRange);
    }
    let a = digits_run_end(t, b);
    let fs = if a < n && t.get_char(a) == '.' {
        a + 1
    } else {
        a
    };
    let fe = digits_run_end(t, fs);
    let len = (a - b) + (fe - fs);
    if len == 0 {
        return Err(DistanceError::Invalid);
    }
    proof {
        lemma_digits_end_bounds(t@, b as int);
        lemma_digits_end_bounds(t@, fs as int);
    }
    let cap: u128 = n as u128 + 64;
    let mut exp_neg = false;
    let mut exp: Option<u128> = Some(0);
    let ghost mut ev: int = 0;
    if fe < n {
        let c = t.get_char(fe);
        if c != 'e' && c != 'E' {
            return Err(DistanceError::Invalid);
        }
        let mut xs = fe + 1;
        if xs < n {
            let c2 = t.get_char(xs);
            if c2 == '-' || c2 == '+' {
                exp_neg = c2 == '-';
                xs = xs + 1;
            }
        }
        if xs >= n || digits_run_end(t, xs) != n {
            return Err(DistanceError::Invalid);
        }
        proof {
            lemma_pow10_values();
            ev = digits_value(t@.subrange(xs as int, n as int)) as int;
        }
        exp = exponent_value(t, xs, cap);
    }
    let ghost dd = t@.subrange(b as int, a as int) + t@.subrange(fs as int, fe as int);
    assert(dd == token_digits(t@));
    match exp {
        Some(v) => {
            let e: i128 = if exp_neg {
                -(v as i128)
            } else {
                v as i128
            };
            place_digits(t, b, a, fs, fe, negative, (fe - fs) as i128 - e)
        },
        None => place_far(t, b, a, fs, fe, negative, exp_neg, Ghost(ev)),
    }
}

/// The value of a token whose exponent, `ev` in size, outweighs all its
/// digits: zero, or out of range.
fn place_far(
    t: &str,
    b: usize,
    a: usize,
    fs: usize,
    fe: usize,
    negative: bool,
    exp_neg: bool,
    Ghost(ev): Ghost<int>,
) -> (r: Result<Decimal, DistanceError>)
    requires
        b <= a <= fs <= fe <= t@.len(),
        (a - b) + (fe - fs) >= 1,
        ev >= t@.len() + 64,
        forall|k: int| b <= k < a ==> is_digit(#[trigger] t@[k]),
        forall|k: int| fs <= k < fe ==> is_digit(#[trigger] t@[k]),
    ensures
        r == place(
            negative,
            digits_value(t@.subrange(b as int, a as int) + t@.subrange(fs as int, fe as int)),
            (fe - fs) - (if exp_neg {
                -ev
            } else {
                ev
            }),
        ),
{
    let ghost dd = t@.subrange(b as int, a as int) + t@.subrange(fs as int, fe as int);
    let len = (a - b) + (fe - fs);
    proof {
        assert forall|j: int| 0 <= j < dd.len() implies is_digit(#[trigger] dd[j]) by {
            if j < a - b {
                assert(dd[j] == t@[b + j]);
            } else {
                assert(dd[j] == t@[fs + j - (a - b)]);
            }
        }
        lemma_digits_value_bound(dd);
        lemma_pow10_values();
    }
    if exp_neg {
        proof {
            let k = (fe - fs) + ev;
            lemma_pow10_mono(dd.len(), (k - MAX_DECIMALS) as nat);
            assert(digits_value(dd) / pow10((k - MAX_DECIMALS) as nat) == 0) by (nonlinear_arith)
                requires
                    digits_value(dd) < pow10((k - MAX_DECIMALS) as nat),
            ;
            lemma_pow10_pos((INT_DIGITS + MAX_DECIMALS) as nat);
        }
        return Ok(Decimal { negative, mantissa: 0, scale: MAX_DECIMALS });
    }
    proof {
        assert(dd.take(len as int) =~= dd);
    }
    match prefix_value(t, b, a, fs, fe, len, 1) {
        Some(_) => {
            proof {
                assert(0 * pow10((ev - (fe - fs)) as nat) == 0);
                lemma_pow10_pos(INT_DIGITS as nat);
            }
            Ok(Decimal { negative, mantissa: 0, scale: 0 })
        },
        None => {
            proof {
                let j = (ev - (fe - fs)) as nat;
                lemma_pow10_mono(INT_DIGITS as nat, j);
                assert(digits_value(dd) * pow10(j) >= pow10(j)) by (nonlinear_arith)
                    requires
                        digits_value(dd) >= 1,
                ;
            }
            Err(DistanceError::OutOfRange)
        },
    }
}

/// The value `±digits / 10^k` of a token's digits, as `place` holds it.
#[verifier::rlimit(50)]
fn place_digits(
    t: &str,
    b: usize,
    a: usize,
    fs: usize,
    fe: usize,
    negative: bool,
    k: i128,
) -> (r: Result<Decimal, DistanceError>)
    requires
        b <= a <= fs <= fe <= t@.len(),
        (a - b) + (fe - fs) >= 1,
        -(t@.len() + 64) <= k <= 2 * t@.len() + 64,
        forall|j: int| b <= j < a ==> is_digit(#[trigger] t@[j]),
        forall|j: int| fs <= j < fe ==> is_digit(#[trigger] t@[j]),
    ensures
        r == place(
            negative,
            digits_value(t@.subrange(b as int, a as int) + t@.subrange(fs as int, fe as int)),
            k as int,
        ),
{
    let n = t.unicode_len();
    let ghost dd = t@.subrange(b as int, a as int) + t@.subrange(fs as int, fe as int);
    let len = (a - b) + (fe - fs);
    proof {
        assert forall|j: int| 0 <= j < dd.len() implies is_digit(#[trigger] dd[j]) by {
            if j < a - b {
                assert(dd[j] == t@[b + j]);
            } else {
                assert(dd[j] == t@[fs + j - (a - b)]);
            }
        }
    }
    proof {
        assert(dd.take(len as int) =~= dd);
        lemma_pow10_values();
    }
    if k > MAX_DECIMALS as i128 {
        let cut = (k - MAX_DECIMALS as i128) as u128;
        proof {
            lemma_digits_value_bound(dd);
        }
        if cut >= len as u128 {
            proof {
                lemma_pow10_mono(dd.len(), cut as nat);
                assert(digits_value(dd) / pow10(cut as nat) == 0) by (nonlinear_arith)
                    requires
                        digits_value(dd) < pow10(cut as nat),
                ;
                lemma_pow10_pos((INT_DIGITS + MAX_DECIMALS) as nat);
                assert(shifted(digits_value(dd), MAX_DECIMALS - k) == 0);
            }
            return Ok(Decimal { negative, mantissa: 0, scale: MAX_DECIMALS });
        }
        let keep = len - cut as usize;
        proof {
            let p = dd.take(keep as int);
            let q = dd.subrange(keep as int, dd.len() as int);
            assert(p + q =~= dd);
            lemma_digits_value_split(p, q);
            assert forall|j: int| 0 <= j < q.len() implies is_digit(#[trigger] q[j]) by {
                assert(q[j] == dd[keep + j]);
            }
            lemma_digits_value_bound(q);
            lemma_pow10_pos(q.len());
            let x = digits_value(p);
            let y = digits_value(q);
            let pq = pow10(q.len());
            assert((x * pq + y) / pq == x) by (nonlinear_arith)
                requires
                    y < pq,
                    pq >= 1,
            ;
            assert(q.len() == cut);
            assert(shifted(digits_value(dd), MAX_DECIMALS - k) == x);
        }
        match prefix_value(t, b, a, fs, fe, keep, pow10_exec(INT_DIGITS + MAX_DECIMALS)) {
            Some(v) => Ok(Decimal { negative, mantissa: v, scale: MAX_DECIMALS }),
            None => Err(DistanceError::OutOfRange),
        }
    } else if k >= 0 {
        proof {
            lemma_pow10_mono((INT_DIGITS + k) as nat, 32);
            lemma_pow10_pos((INT_DIGITS + k) as nat);
        }
        match prefix_value(t, b, a, fs, fe, len, pow10_exec(INT_DIGITS + k as u32)) {
            Some(v) => {
                proof {
                    assert(pow10(0) == 1);
                    lemma_shifted_zero(digits_value(dd));
                    assert(v == digits_value(dd));
                }
                Ok(Decimal { negative, mantissa: v, scale: k as u32 })
            },
            None => {
                proof {
                    assert(pow10(0) == 1);
                    lemma_shifted_zero(digits_value(dd));
                }
                Err(DistanceError::OutOfRange)
            },
        }
    } else {
        let lim = pow10_exec(INT_DIGITS);
        proof {
            lemma_pow10_mono(INT_DIGITS as nat, 32);
            lemma_pow10_pos(INT_DIGITS as nat);
        }
        match prefix_value(t, b, a, fs, fe, len, lim) {
            None => {
                proof {
                    let j = (-k) as nat;
                    lemma_pow10_pos(j);
                    assert(digits_value(dd) * pow10(j) >= digits_value(dd)) by (nonlinear_arith)
                        requires
                            pow10(j) >= 1,
                    ;
                }
                Err(DistanceError::OutOfRange)
            },
            Some(m) => {
                if m == 0 {
                    proof {
                        assert(0 * pow10((-k) as nat) == 0);
                        lemma_pow10_pos(INT_DIGITS as nat);
                    }
                    return Ok(Decimal { negative, mantissa: 0, scale: 0 });
                }
                let j = (-k) as u128;
                if j > INT_DIGITS as u128 {
                    proof {
                        lemma_pow10_mono(INT_DIGITS as nat, j as nat);
                        assert(m * pow10(j as nat) >= pow10(j as nat)) by (nonlinear_arith)
                            requires
                                m >= 1,
                        ;
                    }
                    return Err(DistanceError::OutOfRange);
                }
                let p = pow10_exec(j as u32);
                let room = pow10_exec(INT_DIGITS - j as u32);
                proof {
                    lemma_pow10_add((INT_DIGITS - j) as nat, j as nat);
                    assert((INT_DIGITS - j) as nat + j as nat == INT_DIGITS as nat);
                    lemma_pow10_pos(j as nat);
                    lemma_pow10_mono(INT_DIGITS as nat, 32);
                }
                if m < room {
                    proof {
                        assert(m * p < room * p) by (nonlinear_arith)
                            requires
                                m < room,
                                p >= 1,
                        ;
                    }
                    Ok(Decimal { negative, mantissa: m * p, scale: 0 })
                } else {
                    proof {
                        assert(m * p >= room * p) by (nonlinear_arith)
                            requires
                                m >= room,
                        ;
                    }
                    Err(DistanceError::OutOfRange)
                }
            },
        }
    }
}

} // verus!
