//! Decimal rendering of unsigned integers, as character sequences.

use vstd::prelude::*;

verus! {

/// The character for the decimal digit `d`.
pub open spec fn digit_char(d: nat) -> char {
    if d == 0 {
        '0'
    } else if d == 1 {
        '1'
    } else if d == 2 {
        '2'
    } else if d == 3 {
        '3'
    } else if d == 4 {
        '4'
    } else if d == 5 {
        '5'
    } else if d == 6 {
        '6'
    } else if d == 7 {
        '7'
    } else if d == 8 {
        '8'
    } else {
        '9'
    }
}

/// The decimal numeral of `n`, most significant digit first.
pub open spec fn dec_digits(n: nat) -> Seq<char>
    decreases n,
{
    if n < 10 {
        seq![digit_char(n)]
    } else {
        dec_digits(n / 10).push(digit_char(n % 10))
    }
}

/// A run of `k` zero characters.
pub open spec fn zero_run(k: nat) -> Seq<char> {
    Seq::new(k, |i: int| '0')
}

/// The decimal numeral of `n`, left-padded with zeros to at least `width`
/// characters.
pub open spec fn dec_padded(n: nat, width: nat) -> Seq<char> {
    if dec_digits(n).len() >= width {
        dec_digits(n)
    } else {
        zero_run((width - dec_digits(n).len()) as nat) + dec_digits(n)
    }
}

/// A fixed-point quantity counted in ten-thousandths, rendered with exactly
/// four digits after the decimal point.
pub open spec fn fixed4(d: nat) -> Seq<char> {
    dec_digits(d / 10000) + seq!['.'] + dec_padded(d % 10000, 4)
}

pub proof fn lemma_dec_digits_len(n: nat)
    ensures
        dec_digits(n).len() >= 1,
{
    if n < 10 {
    } else {
        assert(dec_digits(n) == dec_digits(n / 10).push(digit_char(n % 10)));
    }
}

fn digit_of(d: u64) -> (c: char)
    requires
        d < 10,
    ensures
        c == digit_char(d as nat),
{
    match d {
        0 => '0',
        1 => '1',
        2 => '2',
        3 => '3',
        4 => '4',
        5 => '5',
        6 => '6',
        7 => '7',
        8 => '8',
        _ => '9',
    }
}

proof fn lemma_reverse_push(s: Seq<char>, c: char)
    ensures
        s.push(c).reverse() =~= seq![c] + s.reverse(),
{
}

/// Appends to `out` the decimal numeral of `n`, zero-padded on the left to at
/// least `width` characters.
pub fn push_decimal(out: &mut Vec<char>, n: u64, width: usize)
    ensures
        final(out)@ == old(out)@ + dec_padded(n as nat, width as nat),
{
    let mut digits: Vec<char> = Vec::new();
    let mut m: u64 = n;
    while m >= 10
        invariant
            dec_digits(n as nat) == dec_digits(m as nat) + digits@.reverse(),
        decreases m,
    {
        let ghost pre = digits@;
        let d = m % 10;
        digits.push(digit_of(d));
        proof {
            lemma_reverse_push(pre, digit_char(d as nat));
            assert(dec_digits(m as nat) == dec_digits((m / 10) as nat).push(
                digit_char((m % 10) as nat),
            ));
            assert(dec_digits((m / 10) as nat) + digits@.reverse() =~= dec_digits(m as nat)
                + pre.reverse());
        }
        m = m / 10;
    }
    let ghost pre = digits@;
    digits.push(digit_of(m));
    proof {
        lemma_reverse_push(pre, digit_char(m as nat));
        assert(dec_digits(m as nat) =~= seq![digit_char(m as nat)]);
        assert(digits@.reverse() =~= dec_digits(m as nat) + pre.reverse());
        assert(digits@.reverse() == dec_digits(n as nat));
    }
    let num_len = digits.len();
    let mut pad: usize = 0;
    let ghost padded = dec_padded(n as nat, width as nat);
    let ghost total_pad: int = if num_len >= width {
        0
    } else {
        width - num_len
    };
    proof {
        assert(digits@.reverse().len() == digits@.len());
        assert(padded == if num_len >= width {
            dec_digits(n as nat)
        } else {
            zero_run((width - num_len) as nat) + dec_digits(n as nat)
        });
    }
    while num_len < width && pad < width - num_len
        invariant
            num_len == digits.len(),
            0 <= pad <= total_pad,
            total_pad == if num_len >= width {
                0int
            } else {
                width - num_len
            },
            out@ == old(out)@ + zero_run(pad as nat),
            digits@.reverse() == dec_digits(n as nat),
        decreases total_pad - pad,
    {
        out.push('0');
        proof {
            assert(zero_run(pad as nat).push('0') =~= zero_run((pad + 1) as nat));
            assert(out@ =~= old(out)@ + zero_run((pad + 1) as nat));
        }
        pad = pad + 1;
    }
    proof {
        assert(pad == total_pad);
    }
    let mut i: usize = 0;
    while i < num_len
        invariant
            num_len == digits.len(),
            digits@.reverse() == dec_digits(n as nat),
            0 <= i <= num_len,
            out@ == old(out)@ + zero_run(total_pad as nat) + digits@.reverse().take(i as int),
            total_pad == if num_len >= width {
                0int
            } else {
                width - num_len
            },
        decreases num_len - i,
    {
        let c = digits[num_len - 1 - i];
        out.push(c);
        proof {
            assert(digits@.reverse()[i as int] == c);
            assert(digits@.reverse().take(i + 1) =~= digits@.reverse().take(i as int).push(c));
            assert(out@ =~= old(out)@ + zero_run(total_pad as nat) + digits@.reverse().take(
                i + 1,
            ));
        }
        i = i + 1;
    }
    proof {
        assert(digits@.reverse().take(num_len as int) =~= dec_digits(n as nat));
        assert(zero_run(0) =~= Seq::<char>::empty());
        assert(out@ =~= old(out)@ + dec_padded(n as nat, width as nat));
    }
}

/// Appends to `out` the fixed-point value `d` (counted in ten-thousandths)
/// with exactly four digits after the decimal point.
pub fn push_fixed4(out: &mut Vec<char>, d: u64)
    ensures
        final(out)@ == old(out)@ + fixed4(d as nat),
{
    proof {
        lemma_dec_digits_len((d / 10000) as nat);
        assert(dec_padded((d / 10000) as nat, 1) == dec_digits((d / 10000) as nat));
    }
    push_decimal(out, d / 10000, 1);
    out.push('.');
    push_decimal(out, d % 10000, 4);
    proof {
        assert(out@ =~= old(out)@ + fixed4(d as nat));
    }
}

} // verus!
