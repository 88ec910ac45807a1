//! Decimal rendering of integers, and the time stamps built from them.

use vstd::prelude::*;

verus! {

/// The character of decimal digit `d`.
pub open spec fn digit_char(d: nat) -> char {
    if d == 0 { '0' }
    else if d == 1 { '1' }
    else if d == 2 { '2' }
    else if d == 3 { '3' }
    else if d == 4 { '4' }
    else if d == 5 { '5' }
    else if d == 6 { '6' }
    else if d == 7 { '7' }
    else if d == 8 { '8' }
    else { '9' }
}

/// The decimal representation of `n`, without leading zeros.
pub open spec fn decimal(n: nat) -> Seq<char>
    decreases n,
{
    if n < 10 {
        seq![digit_char(n)]
    } else {
        decimal(n / 10) + seq![digit_char(n % 10)]
    }
}

/// The one-character text of decimal digit `d`.
fn digit_str(d: usize) -> (r: &'static str)
    requires
        d < 10,
    ensures
        r@ == seq![digit_char(d as nat)],
{
    proof {
        reveal_strlit("0");
        reveal_strlit("1");
        reveal_strlit("2");
        reveal_strlit("3");
        reveal_strlit("4");
        reveal_strlit("5");
        reveal_strlit("6");
        reveal_strlit("7");
        reveal_strlit("8");
        reveal_strlit("9");
    }
    if d == 0 { "0" }
    else if d == 1 { "1" }
    else if d == 2 { "2" }
    else if d == 3 { "3" }
    else if d == 4 { "4" }
    else if d == 5 { "5" }
    else if d == 6 { "6" }
    else if d == 7 { "7" }
    else if d == 8 { "8" }
    else { "9" }
}

/// Appends the decimal representation of `n` to `s`.
pub fn push_decimal(s: &mut String, n: usize)
    ensures
        final(s)@ == old(s)@ + decimal(n as nat),
    decreases n,
{
    if n >= 10 {
        push_decimal(s, n / 10);
    }
    s.append(digit_str(n % 10));
    proof {
        if n >= 10 {
            assert(final(s)@ =~= old(s)@ + decimal(n as nat));
        } else {
            assert(final(s)@ =~= old(s)@ + decimal(n as nat));
        }
    }
}

/// `n` in decimal, left-padded with zeros to at least `w` characters.
pub open spec fn padded(n: nat, w: nat) -> Seq<char> {
    let d = decimal(n);
    if d.len() < w {
        Seq::new((w - d.len()) as nat, |i: int| '0') + d
    } else {
        d
    }
}

/// `y` in decimal, with a minus sign when negative.
pub open spec fn signed_decimal(y: int) -> Seq<char> {
    if y < 0 {
        seq!['-'] + decimal((-y) as nat)
    } else {
        decimal(y as nat)
    }
}

/// `10^k`.
pub open spec fn pow10(k: nat) -> nat
    decreases k,
{
    if k == 0 {
        1
    } else {
        10 * pow10((k - 1) as nat)
    }
}

/// A number below `10^k` has at most `k` digits (and always one).
proof fn lemma_decimal_len(n: nat, k: nat)
    requires
        k >= 1,
        n < pow10(k),
    ensures
        1 <= decimal(n).len() <= k,
    decreases n,
{
    if n >= 10 {
        assert(k >= 2) by {
            if k == 1 {
                assert(pow10(1) == 10 * pow10(0));
            }
        }
        assert(n / 10 < pow10((k - 1) as nat)) by (nonlinear_arith)
            requires
                n < pow10(k),
                pow10(k) == 10 * pow10((k - 1) as nat),
        ;
        lemma_decimal_len(n / 10, (k - 1) as nat);
    }
}

/// The number of decimal digits of `n`.
fn decimal_len(n: usize) -> (r: usize)
    ensures
        r == decimal(n as nat).len(),
{
    proof {
        reveal_with_fuel(pow10, 21);
        assert(n < pow10(20));
        lemma_decimal_len(n as nat, 20);
    }
    let mut m = n;
    let mut count: usize = 1;
    while m >= 10
        invariant
            count + decimal(m as nat).len() - 1 == decimal(n as nat).len(),
            decimal(n as nat).len() <= 20,
            1 <= decimal(m as nat).len(),
        decreases m,
    {
        m = m / 10;
        count = count + 1;
    }
    count
}

/// Appends `n` in decimal, left-padded with zeros to at least `w`
/// characters.
pub fn push_padded(s: &mut String, n: usize, w: usize)
    ensures
        final(s)@ == old(s)@ + padded(n as nat, w as nat),
{
    let len = decimal_len(n);
    proof {
        reveal_strlit("0");
    }
    let ghost s0 = s@;
    if len < w {
        let mut k: usize = 0;
        while k < w - len
            invariant
                k <= w - len,
                len < w,
                s@ == s0 + Seq::new(k as nat, |i: int| '0'),
            decreases w - len - k,
        {
            s.append("0");
            k = k + 1;
            proof {
                reveal_strlit("0");
                assert(s@ =~= s0 + Seq::new(k as nat, |i: int| '0'));
            }
        }
    }
    push_decimal(s, n);
    proof {
        assert(s@ =~= s0 + padded(n as nat, w as nat));
    }
}

/// A moment of time in its calendar fields.
pub struct Stamp {
    pub year: i32,
    pub month: u32,
    pub day: u32,
    pub hour: u32,
    pub minute: u32,
    pub second: u32,
    pub nanosecond: u32,
}

/// `year-MM-DD_hh-mm-ss-nnnn`, each field but the year zero-padded to two
/// digits and the nanoseconds to at least four.
pub open spec fn stamp_text(t: Stamp) -> Seq<char> {
    signed_decimal(t.year as int) + seq!['-'] + padded(t.month as nat, 2) + seq!['-'] + padded(t.day as nat, 2)
        + seq!['_'] + padded(t.hour as nat, 2) + seq!['-'] + padded(t.minute as nat, 2) + seq!['-'] + padded(
        t.second as nat,
        2,
    ) + seq!['-'] + padded(t.nanosecond as nat, 4)
}

/// The moment as text.
pub fn utc_format(t: &Stamp) -> (s: String)
    ensures
        s@ == stamp_text(*t),
{
    let mut s = String::new();
    proof {
        reveal_strlit("-");
        reveal_strlit("_");
    }
    if t.year < 0 {
        s.append("-");
        let y: i64 = -(t.year as i64);
        push_decimal(&mut s, y as usize);
    } else {
        push_decimal(&mut s, t.year as usize);
    }
    s.append("-");
    push_padded(&mut s, t.month as usize, 2);
    s.append("-");
    push_padded(&mut s, t.day as usize, 2);
    s.append("_");
    push_padded(&mut s, t.hour as usize, 2);
    s.append("-");
    push_padded(&mut s, t.minute as usize, 2);
    s.append("-");
    push_padded(&mut s, t.second as usize, 2);
    s.append("-");
    push_padded(&mut s, t.nanosecond as usize, 4);
    proof {
        assert(s@ =~= stamp_text(*t));
    }
    s
}

/// A file name stamped with the moment: `base`, the stamp, `suffix`, a
/// dot and `ext`.
pub fn fname_gen(t: &Stamp, base: &str, suffix: &str, ext: &str) -> (s: String)
    ensures
        s@ == base@ + stamp_text(*t) + suffix@ + seq!['.'] + ext@,
{
    let mut s = String::new();
    s.append(base);
    let stamp = utc_format(t);
    s.append(stamp.as_str());
    s.append(suffix);
    s.append(".");
    s.append(ext);
    proof {
        reveal_strlit(".");
        assert(s@ =~= base@ + stamp_text(*t) + suffix@ + seq!['.'] + ext@);
    }
    s
}

} // verus!
