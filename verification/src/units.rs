//! Human-readable byte counts.
use vstd::prelude::*;
use vstd::string::StringExecFns;

verus! {

/// The decimal digit `d` as a character.
pub open spec fn digit_char(d: int) -> char {
    (d + 48) as char
}

/// The decimal representation of `n`, without leading zeros.
pub open spec fn decimal_chars(n: nat) -> Seq<char>
    decreases n,
{
    if n < 10 {
        seq![digit_char(n as int)]
    } else {
        decimal_chars(n / 10).push(digit_char((n % 10) as int))
    }
}

/// `h` hundredths written with two decimals.
pub open spec fn fixed2(h: nat) -> Seq<char> {
    decimal_chars(h / 100) + seq!['.', digit_char(((h % 100) / 10) as int), digit_char((h % 10) as int)]
}

/// The power of two `p` (at most 2^11) by which `x` must be scaled down to fit 53 bits.
pub open spec fn f64_scale(x: nat, p: nat, k: nat) -> nat
    decreases 11 - k,
{
    if k >= 11 || x < 9007199254740992 * p {
        p
    } else {
        f64_scale(x, 2 * p, k + 1)
    }
}

/// The value of the double nearest to `x` (ties to even): `x` rounded to 53 significant bits.
pub open spec fn f64_round(x: nat) -> nat {
    let p = f64_scale(x, 1, 0);
    let q = x / p;
    let r = x % p;
    let up = p > 1 && (2 * r > p || (2 * r == p && q % 2 == 1));
    (if up { q + 1 } else { q }) * p
}

/// `value / den` rounded to the nearest hundredth (ties to even), counted in hundredths.
pub open spec fn hundredths(value: nat, den: nat) -> nat {
    let q = (value * 100) / den;
    let r = (value * 100) % den;
    if 2 * r > den || (2 * r == den && q % 2 == 1) {
        q + 1
    } else {
        q
    }
}

/// What `format_size` writes: bytes below 1 KiB as an integer, else KB or MB with two decimals.
pub open spec fn format_size_spec(bytes: nat) -> Seq<char> {
    if bytes >= 1048576 {
        fixed2(hundredths(f64_round(bytes), 1048576)) + " MB"@
    } else if bytes >= 1024 {
        fixed2(hundredths(bytes, 1024)) + " KB"@
    } else {
        decimal_chars(bytes) + " B"@
    }
}

fn push_digit(s: &mut String, d: u128)
    requires
        d < 10,
    ensures
        final(s)@ == old(s)@.push(digit_char(d as int)),
{
    proof {
        reveal_strlit("0");
        reveal_strlit("1");
        reveal_strlit("2");
        reveal_strlit("3");
        reveal_strlit("4");
        reveal_strlit("5");
        reveal_strlit("6");
        reveal_strlit("7");
        reveal_strlit("8");
        reveal_strlit("9");
    }
    let ghost before = s@;
    if d == 0 {
        s.append("0");
    } else if d == 1 {
        s.append("1");
    } else if d == 2 {
        s.append("2");
    } else if d == 3 {
        s.append("3");
    } else if d == 4 {
        s.append("4");
    } else if d == 5 {
        s.append("5");
    } else if d == 6 {
        s.append("6");
    } else if d == 7 {
        s.append("7");
    } else if d == 8 {
        s.append("8");
    } else {
        s.append("9");
    }
    assert(s@ =~= before.push(digit_char(d as int)));
}

fn push_decimal(s: &mut String, n: u128)
    ensures
        final(s)@ == old(s)@ + decimal_chars(n as nat),
    decreases n,
{
    if n >= 10 {
        push_decimal(s, n / 10);
    }
    push_digit(s, n % 10);
    assert(s@ =~= old(s)@ + decimal_chars(n as nat));
}

fn push_fixed2(s: &mut String, h: u128)
    ensures
        final(s)@ == old(s)@ + fixed2(h as nat),
{
    push_decimal(s, h / 100);
    let ghost mid = s@;
    proof {
        reveal_strlit(".");
    }
    s.append(".");
    push_digit(s, (h % 100) / 10);
    push_digit(s, h % 10);
    assert(s@ =~= old(s)@ + fixed2(h as nat));
}

fn round_to_double(x: u128) -> (v: u128)
    requires
        x < 18446744073709551616,
    ensures
        v == f64_round(x as nat),
        v <= 37778931862957161709568,
{
    let mut p: u128 = 1;
    let mut k: u64 = 0;
    proof {
        vstd::arithmetic::power2::lemma2_to64();
    }
    while k < 11 && x >= 9007199254740992 * p
        invariant
            k <= 11,
            p == vstd::arithmetic::power2::pow2(k as nat),
            1 <= p <= 2048,
            f64_scale(x as nat, 1, 0) == f64_scale(x as nat, p as nat, k as nat),
        decreases 11 - k,
    {
        proof {
            vstd::arithmetic::power2::lemma_pow2_unfold((k + 1) as nat);
            vstd::arithmetic::power2::lemma2_to64();
            if k + 1 < 11 {
                vstd::arithmetic::power2::lemma_pow2_strictly_increases((k + 1) as nat, 11);
            }
        }
        p = 2 * p;
        k = k + 1;
    }
    let q = x / p;
    let r = x % p;
    let up = p > 1 && (2 * r > p || (2 * r == p && q % 2 == 1));
    let q2 = if up { q + 1 } else { q };
    assert(q2 * p <= 37778931862957161709568) by (nonlinear_arith)
        requires
            q2 <= x + 1,
            x < 18446744073709551616,
            p <= 2048,
    ;
    q2 * p
}

fn round_hundredths(value: u128, den: u128) -> (h: u128)
    requires
        0 < den <= 1048576,
        value <= 37778931862957161709568,
    ensures
        h == hundredths(value as nat, den as nat),
{
    let q = (value * 100) / den;
    let r = (value * 100) % den;
    if 2 * r > den || (2 * r == den && q % 2 == 1) {
        q + 1
    } else {
        q
    }
}

/// Writes a byte count for people: `512 B`, `1.50 KB`, `2.00 MB`.
pub fn format_size(bytes: usize) -> (r: String)
    ensures
        r@ == format_size_spec(bytes as nat),
{
    let mut s = String::new();
    let b = bytes as u128;
    if bytes >= 1048576 {
        let v = round_to_double(b);
        push_fixed2(&mut s, round_hundredths(v, 1048576));
        s.append(" MB");
    } else if bytes >= 1024 {
        push_fixed2(&mut s, round_hundredths(b, 1024));
        s.append(" KB");
    } else {
        push_decimal(&mut s, b);
        s.append(" B");
    }
    assert(s@ =~= format_size_spec(bytes as nat));
    s
}

} // verus!
