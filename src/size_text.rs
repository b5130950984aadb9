//! Byte counts as short human-readable text.
use vstd::prelude::*;

verus! {

/// The decimal digit of `d`.
pub open spec fn digit(d: nat) -> char {
    ((48 + d % 10) as u8) as char
}

/// The decimal digits of `n`, without leading zeros.
pub open spec fn decimal(n: nat) -> Seq<char>
    decreases n,
{
    if n < 10 {
        seq![digit(n)]
    } else {
        decimal(n / 10).push(digit(n % 10))
    }
}

/// `1024` raised to `u`.
pub open spec fn scale(u: nat) -> nat
    decreases u,
{
    if u == 0 {
        1
    } else {
        1024 * scale((u - 1) as nat)
    }
}

/// The largest unit, at most the fifth, that is no more than `b` bytes.
pub open spec fn unit_of(b: nat) -> nat {
    if b < scale(1) {
        0
    } else if b < scale(2) {
        1
    } else if b < scale(3) {
        2
    } else if b < scale(4) {
        3
    } else {
        4
    }
}

/// `n / d` rounded to the nearest integer, ties to even.
pub open spec fn round_div(n: nat, d: nat) -> nat
    recommends
        d > 0,
{
    let q = n / d;
    let r = n % d;
    if 2 * r > d || (2 * r == d && q % 2 == 1) {
        q + 1
    } else {
        q
    }
}

pub open spec fn unit_name(u: nat) -> Seq<char> {
    if u == 0 {
        seq!['B']
    } else if u == 1 {
        seq!['K', 'B']
    } else if u == 2 {
        seq!['M', 'B']
    } else if u == 3 {
        seq!['G', 'B']
    } else {
        seq!['T', 'B']
    }
}

/// Two decimal digits of `n`, below one hundred.
pub open spec fn two_digits(n: nat) -> Seq<char> {
    seq![digit(n / 10), digit(n % 10)]
}

/// The text of `b` bytes: whole bytes below one kilobyte, else the count in
/// the largest unit that fits, with two decimals.
pub open spec fn human_text(b: nat) -> Seq<char> {
    let u = unit_of(b);
    if u == 0 {
        decimal(b) + seq![' '] + unit_name(0)
    } else {
        let h = round_div(b * 100, scale(u));
        decimal(h / 100) + seq!['.'] + two_digits(h % 100) + seq![' '] + unit_name(u)
    }
}

/// The one-character text of a decimal digit.
fn digit_str(d: u128) -> (r: &'static str)
    requires
        d < 10,
    ensures
        r@ == seq![digit(d as nat)],
{
    proof {
        reveal_strlit("0");
        reveal_strlit("1");
        reveal_strlit("2");
        reveal_strlit("3");
        reveal_strlit("4");
        reveal_strlit("5");
        reveal_strlit("6");
        reveal_strlit("7");
        reveal_strlit("8");
        reveal_strlit("9");
    }
    if d == 0 {
        "0"
    } else if d == 1 {
        "1"
    } else if d == 2 {
        "2"
    } else if d == 3 {
        "3"
    } else if d == 4 {
        "4"
    } else if d == 5 {
        "5"
    } else if d == 6 {
        "6"
    } else if d == 7 {
        "7"
    } else if d == 8 {
        "8"
    } else {
        "9"
    }
}

/// The decimal digits of `n`.
fn decimal_text(n: u128) -> (r: String)
    ensures
        r@ == decimal(n as nat),
    decreases n,
{
    if n < 10 {
        String::from_str(digit_str(n))
    } else {
        let mut s = decimal_text(n / 10);
        s.append(digit_str(n % 10));
        s
    }
}

proof fn lemma_scales()
    ensures
        scale(0) == 1,
        scale(1) == 1024,
        scale(2) == 1048576,
        scale(3) == 1073741824,
        scale(4) == 1099511627776,
{
    reveal_with_fuel(scale, 5);
}

/// `bytes` as short text: whole bytes below one kilobyte (`"512 B"`), else
/// the count in the largest unit up to terabytes that fits, rounded to two
/// decimals with ties to even (`"1.50 KB"`).
pub fn human_bytes(bytes: u64) -> (r: String)
    ensures
        r@ == human_text(bytes as nat),
{
    proof {
        lemma_scales();
        reveal_strlit(" B");
        reveal_strlit(" KB");
        reveal_strlit(" MB");
        reveal_strlit(" GB");
        reveal_strlit(" TB");
        reveal_strlit(".");
    }
    if bytes < 1024 {
        let mut s = decimal_text(bytes as u128);
        s.append(" B");
        proof {
            assert(s@ =~= human_text(bytes as nat));
        }
        return s;
    }
    let (d, suffix): (u128, &str) = if bytes < 1048576 {
        (1024, " KB")
    } else if bytes < 1073741824 {
        (1048576, " MB")
    } else if bytes < 1099511627776 {
        (1073741824, " GB")
    } else {
        (1099511627776, " TB")
    };
    let ghost u = unit_of(bytes as nat);
    proof {
        assert(d == scale(u));
        assert(seq![' '] + unit_name(u) =~= suffix@);
    }
    let n: u128 = bytes as u128 * 100;
    let q = n / d;
    let rem = n % d;
    let h: u128 = if 2 * rem > d || (2 * rem == d && q % 2 == 1) {
        q + 1
    } else {
        q
    };
    proof {
        assert(h == round_div(bytes as nat * 100, scale(u)));
    }
    let mut s = decimal_text(h / 100);
    s.append(".");
    let frac = h % 100;
    s.append(digit_str(frac / 10));
    s.append(digit_str(frac % 10));
    s.append(suffix);
    proof {
        assert(s@ =~= human_text(bytes as nat));
    }
    s
}

} // verus!
