//! The round-trip reply: a delay in seconds written with a precision that
//! follows its magnitude.
use vstd::prelude::*;
use vstd::string::*;
use crate::decimal::{lemma_pow10_mono, lemma_pow10_pos, lemma_pow10_values, pow10, pow10_exec, Decimal};

verus! {

pub open spec fn digit_char(d: nat) -> char {
    "0123456789"@[d as int]
}

/// `n` in base ten, without leading zeros.
pub open spec fn nat_text(n: nat) -> Seq<char>
    decreases n,
{
    if n < 10 {
        seq![digit_char(n)]
    } else {
        nat_text(n / 10).push(digit_char(n % 10))
    }
}

/// The last `k` digits of `n`, zeros in front where `n` has fewer.
pub open spec fn frac_text(n: nat, k: nat) -> Seq<char>
    decreases k,
{
    if k == 0 {
        seq![]
    } else {
        frac_text(n / 10, (k - 1) as nat).push(digit_char(n % 10))
    }
}

/// `n / k` rounded to the nearest integer, ties to even.
pub open spec fn round_div(n: nat, k: nat) -> nat {
    let q = n / k;
    let r = n % k;
    if 2 * r > k || (2 * r == k && q % 2 == 1) {
        q + 1
    } else {
        q
    }
}

/// `|d| * 10^places`, rounded to an integer.
pub open spec fn scaled(d: Decimal, places: nat) -> nat {
    if d.scale <= places {
        (d.mantissa as nat * pow10((places - d.scale) as nat)) as nat
    } else {
        round_div(d.mantissa as nat, pow10((d.scale - places) as nat))
    }
}

/// The text of `v / 10^places` with `places` decimals, as `{:.N}` writes it.
pub open spec fn fixed_text(negative: bool, v: nat, places: nat) -> Seq<char> {
    let sign = if negative {
        seq!['-']
    } else {
        seq![]
    };
    sign + nat_text(v / pow10(places)) + seq!['.'] + frac_text(v, places)
}

/// `r mod 60` for a non-negative `r`, at the same scale.
pub open spec fn seconds_part(r: Decimal) -> Decimal {
    Decimal {
        negative: false,
        mantissa: (r.mantissa as nat % (60 * pow10(r.scale as nat))) as u128,
        scale: r.scale,
    }
}

/// The reply for a round trip of `r` seconds. Below two seconds four
/// decimals, below ten three, below a minute two; then minutes and seconds
/// with one decimal below ten minutes, minutes and whole seconds below an
/// hour, and hours and minutes beyond.
pub open spec fn round_trip_text(r: Decimal) -> Seq<char> {
    let pre = "Round trip time: "@;
    let p = pow10(r.scale as nat);
    let m = r.mantissa as nat;
    let whole = m / p;
    let minutes = whole / 60;
    if r.negative || m < 2 * p {
        pre + fixed_text(r.negative, scaled(r, 4), 4) + "s"@
    } else if m < 10 * p {
        pre + fixed_text(false, scaled(r, 3), 3) + "s"@
    } else if m < 60 * p {
        pre + fixed_text(false, scaled(r, 2), 2) + "s"@
    } else if minutes < 10 {
        pre + nat_text(minutes) + "m "@ + fixed_text(false, scaled(seconds_part(r), 1), 1) + "s"@
    } else if minutes < 60 {
        pre + nat_text(minutes) + "m "@ + nat_text(whole % 60) + "s"@
    } else {
        pre + nat_text(minutes / 60) + "h "@ + nat_text(minutes % 60) + "m"@
    }
}

/// Every round trip `r >= 0` gets exactly one tier, and each tier bound
/// belongs to the tier above it: 2 s, 10 s and 60 s, then 10 and 60 whole
/// minutes.
pub proof fn lemma_tier_boundaries(r: Decimal)
    requires
        r.wf(),
        !r.negative,
    ensures
        r.mantissa == 2 * pow10(r.scale as nat) ==> round_trip_text(r) == "Round trip time: "@
            + fixed_text(false, scaled(r, 3), 3) + "s"@,
        r.mantissa == 10 * pow10(r.scale as nat) ==> round_trip_text(r) == "Round trip time: "@
            + fixed_text(false, scaled(r, 2), 2) + "s"@,
        r.mantissa == 60 * pow10(r.scale as nat) ==> round_trip_text(r) == "Round trip time: "@
            + nat_text(1) + "m "@ + fixed_text(false, scaled(seconds_part(r), 1), 1) + "s"@,
        (r.mantissa as nat / pow10(r.scale as nat)) / 60 == 10 ==> round_trip_text(r)
            == "Round trip time: "@ + nat_text(10) + "m "@ + nat_text(
            (r.mantissa as nat / pow10(r.scale as nat)) % 60,
        ) + "s"@,
        (r.mantissa as nat / pow10(r.scale as nat)) / 60 == 60 ==> round_trip_text(r)
            == "Round trip time: "@ + nat_text(1) + "h "@ + nat_text(0) + "m"@,
{
    let p = pow10(r.scale as nat);
    let m = r.mantissa as nat;
    lemma_pow10_pos(r.scale as nat);
    if m == 60 * p {
        assert(m / p == 60) by (nonlinear_arith)
            requires
                m == 60 * p,
                p >= 1,
        ;
    }
    if (m / p) / 60 >= 1 {
        assert(m >= 60 * p) by (nonlinear_arith)
            requires
                (m / p) / 60 >= 1,
                p >= 1,
        ;
    }
}

fn push_digit(s: &mut String, d: u128)
    requires
        d < 10,
    ensures
        final(s)@ == old(s)@.push(digit_char(d as nat)),
{
    let digits = "0123456789";
    proof {
        reveal_strlit("0123456789");
    }
    let one = digits.substring_char(d as usize, d as usize + 1);
    assert(one@ =~= seq![digit_char(d as nat)]);
    s.append(one);
}

fn push_nat(s: &mut String, n: u128)
    ensures
        final(s)@ == old(s)@ + nat_text(n as nat),
    decreases n,
{
    if n < 10 {
        push_digit(s, n);
        assert(old(s)@.push(digit_char(n as nat)) =~= old(s)@ + nat_text(n as nat));
    } else {
        push_nat(s, n / 10);
        push_digit(s, n % 10);
        assert((old(s)@ + nat_text((n / 10) as nat)).push(digit_char((n % 10) as nat)) =~= old(
            s,
        )@ + nat_text(n as nat));
    }
}

fn push_frac(s: &mut String, n: u128, k: u32)
    ensures
        final(s)@ == old(s)@ + frac_text(n as nat, k as nat),
    decreases k,
{
    if k == 0 {
        assert(old(s)@ + frac_text(n as nat, 0) =~= old(s)@);
    } else {
        push_frac(s, n / 10, k - 1);
        push_digit(s, n % 10);
        assert((old(s)@ + frac_text((n / 10) as nat, (k - 1) as nat)).push(
            digit_char((n % 10) as nat),
        ) =~= old(s)@ + frac_text(n as nat, k as nat));
    }
}

fn push_fixed(s: &mut String, negative: bool, v: u128, places: u32)
    requires
        places <= 4,
    ensures
        final(s)@ == old(s)@ + fixed_text(negative, v as nat, places as nat),
{
    if negative {
        s.append("-");
    }
    proof {
        reveal_strlit("-");
        reveal_strlit(".");
        lemma_pow10_pos(places as nat);
    }
    push_nat(s, v / pow10_exec(places));
    s.append(".");
    push_frac(s, v, places);
    assert(s@ =~= old(s)@ + fixed_text(negative, v as nat, places as nat));
}

/// `|d| * 10^places`, rounded to an integer, ties to even.
fn round_scaled(d: &Decimal, places: u32) -> (r: u128)
    requires
        d.wf(),
        places <= 4,
    ensures
        r == scaled(*d, places as nat),
{
    proof {
        lemma_pow10_values();
    }
    if d.scale <= places {
        let f = pow10_exec(places - d.scale);
        proof {
            lemma_pow10_mono((places - d.scale) as nat, 4);
            assert(d.mantissa * f <= 120 * 100000000000000000000000000000000 * 10000)
                by (nonlinear_arith)
                requires
                    d.mantissa <= 120 * 100000000000000000000000000000000,
                    f <= 10000,
            ;
        }
        d.mantissa * f
    } else {
        let k = pow10_exec(d.scale - places);
        proof {
            lemma_pow10_pos((d.scale - places) as nat);
            lemma_pow10_mono((d.scale - places) as nat, 36);
        }
        let q = d.mantissa / k;
        let rem = d.mantissa % k;
        proof {
            assert(q <= d.mantissa) by (nonlinear_arith)
                requires
                    q == d.mantissa as int / k as int,
                    k >= 1,
            ;
        }
        if 2 * rem > k || (2 * rem == k && q % 2 == 1) {
            q + 1
        } else {
            q
        }
    }
}

/// The reply that tells a requester the round trip of `r` seconds.
pub fn format_round_trip(r: &Decimal) -> (s: String)
    requires
        r.wf(),
    ensures
        s@ == round_trip_text(*r),
{
    proof {
        lemma_pow10_values();
        lemma_pow10_mono(r.scale as nat, 36);
        lemma_pow10_pos(r.scale as nat);
        reveal_strlit("Round trip time: ");
        reveal_strlit("s");
        reveal_strlit("m ");
        reveal_strlit("h ");
        reveal_strlit("m");
    }
    let mut s = String::from_str("Round trip time: ");
    let p = pow10_exec(r.scale);
    let m = r.mantissa;
    if r.negative || m < 2 * p {
        push_fixed(&mut s, r.negative, round_scaled(r, 4), 4);
        s.append("s");
    } else if m < 10 * p {
        push_fixed(&mut s, false, round_scaled(r, 3), 3);
        s.append("s");
    } else if m < 60 * p {
        push_fixed(&mut s, false, round_scaled(r, 2), 2);
        s.append("s");
    } else {
        let whole = m / p;
        let minutes = whole / 60;
        if minutes < 10 {
            push_nat(&mut s, minutes);
            s.append("m ");
            let sec = Decimal { negative: false, mantissa: m % (60 * p), scale: r.scale };
            proof {
                assert(sec.mantissa <= m);
            }
            push_fixed(&mut s, false, round_scaled(&sec, 1), 1);
            s.append("s");
        } else if minutes < 60 {
            push_nat(&mut s, minutes);
            s.append("m ");
            push_nat(&mut s, whole % 60);
            s.append("s");
        } else {
            push_nat(&mut s, minutes / 60);
            s.append("h ");
            push_nat(&mut s, minutes % 60);
            s.append("m");
        }
    }
    s
}

} // verus!
