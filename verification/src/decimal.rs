//! Decimal numerals as ASCII bytes: rendering, zero padding and parsing.

use vstd::prelude::*;

verus! {

/// The ASCII byte of the decimal digit `d`.
pub open spec fn digit_byte(d: nat) -> u8 {
    (48 + d) as u8
}

/// The decimal numeral of `n`, most significant digit first, without
/// leading zeros (`0` is written `"0"`).
pub open spec fn decimal(n: nat) -> Seq<u8>
    decreases n,
{
    if n < 10 {
        seq![digit_byte(n)]
    } else {
        decimal(n / 10).push(digit_byte(n % 10))
    }
}

/// `k` copies of the byte `'0'`.
pub open spec fn zeros(k: nat) -> Seq<u8> {
    Seq::new(k, |i: int| 48u8)
}

/// The numeral of `n`, filled up with leading zeros to `width` bytes; a
/// numeral that is already that long is left as it is.
pub open spec fn padded(n: nat, width: nat) -> Seq<u8> {
    if decimal(n).len() >= width {
        decimal(n)
    } else {
        zeros((width - decimal(n).len()) as nat) + decimal(n)
    }
}

/// A numeral has at least one digit, and every byte of it is a digit.
pub proof fn lemma_decimal_is_digits(n: nat)
    ensures
        decimal(n).len() >= 1,
        forall|i: int| 0 <= i < decimal(n).len() ==> 48 <= #[trigger] decimal(n)[i] <= 57,
    decreases n,
{
    if n >= 10 {
        lemma_decimal_is_digits(n / 10);
    }
}

/// A machine word has at most twenty decimal digits.
pub proof fn lemma_decimal_len_bound(n: nat)
    requires
        n <= 0xffff_ffff_ffff_ffff,
    ensures
        decimal(n).len() <= 20,
{
    reveal_with_fuel(decimal, 21);
}

/// Renders `n` in decimal.
pub fn to_decimal(n: usize) -> (out: Vec<u8>)
    ensures
        out@ == decimal(n as nat),
{
    let mut out: Vec<u8> = Vec::new();
    let mut rest: usize = n;
    let mut done: bool = false;
    while !done
        invariant
            decimal(n as nat) == if done {
                out@
            } else {
                decimal(rest as nat) + out@
            },
        decreases (if done { 0int } else { rest + 1 }),
    {
        let d: u8 = (rest % 10) as u8;
        let ghost before = out@;
        out.insert(0, 48u8 + d);
        proof {
            assert(out@ =~= seq![digit_byte(d as nat)] + before);
            if rest >= 10 {
                assert(decimal(rest as nat) + before =~= decimal((rest / 10) as nat) + out@);
            }
        }
        if rest < 10 {
            done = true;
        } else {
            rest = rest / 10;
        }
    }
    out
}

/// Renders `n` in decimal, with leading zeros up to `width` bytes.
pub fn to_decimal_padded(n: usize, width: usize) -> (out: Vec<u8>)
    ensures
        out@ == padded(n as nat, width as nat),
{
    let digits = to_decimal(n);
    if digits.len() >= width {
        return digits;
    }
    let fill: usize = width - digits.len();
    let mut out: Vec<u8> = Vec::new();
    let mut i: usize = 0;
    while i < fill
        invariant
            i <= fill,
            out@ == zeros(i as nat),
        decreases fill - i,
    {
        out.push(48u8);
        assert(out@ =~= zeros((i + 1) as nat));
        i += 1;
    }
    let mut j: usize = 0;
    while j < digits.len()
        invariant
            j <= digits.len(),
            out@ == zeros(fill as nat) + digits@.take(j as int),
        decreases digits.len() - j,
    {
        out.push(digits[j]);
        assert(out@ =~= zeros(fill as nat) + digits@.take(j + 1));
        j += 1;
    }
    assert(digits@.take(digits.len() as int) =~= digits@);
    out
}

/// The number of digits in the numeral of `n`.
pub fn decimal_width(n: usize) -> (w: usize)
    ensures
        w == decimal(n as nat).len(),
        1 <= w <= 20,
{
    proof {
        lemma_decimal_is_digits(n as nat);
        lemma_decimal_len_bound(n as nat);
    }
    to_decimal(n).len()
}

/// A numeral is a non-empty run of decimal digits.
pub open spec fn is_numeral(t: Seq<u8>) -> bool {
    &&& t.len() >= 1
    &&& forall|i: int| 0 <= i < t.len() ==> 48 <= #[trigger] t[i] <= 57
}

/// The number that the digits of `t` stand for, the first digit being the
/// most significant.
pub open spec fn numeral_value(t: Seq<u8>) -> nat
    decreases t.len(),
{
    if t.len() == 0 {
        0
    } else {
        (numeral_value(t.drop_last()) * 10 + (t.last() - 48)) as nat
    }
}

/// A numeral stands for no less than any of its beginnings.
pub proof fn lemma_numeral_value_grows(t: Seq<u8>, k: int)
    requires
        is_numeral(t),
        0 <= k <= t.len(),
    ensures
        numeral_value(t.take(k)) <= numeral_value(t),
    decreases t.len() - k,
{
    if k < t.len() {
        let longer = t.take(k + 1);
        assert(longer.drop_last() =~= t.take(k));
        assert(longer.last() == t[k]);
        lemma_numeral_value_grows(t, k + 1);
    } else {
        assert(t.take(k) =~= t);
    }
}

/// Reading the numeral of a number gives the number.
pub proof fn lemma_numeral_of_decimal(n: nat)
    ensures
        is_numeral(decimal(n)),
        numeral_value(decimal(n)) == n,
    decreases n,
{
    lemma_decimal_is_digits(n);
    let t = decimal(n);
    if n < 10 {
        assert(t.drop_last() =~= Seq::<u8>::empty());
        assert(numeral_value(t.drop_last()) == 0);
        assert(t.last() == 48 + n);
    } else {
        lemma_numeral_of_decimal(n / 10);
        assert(t.drop_last() =~= decimal(n / 10));
        assert(t.last() == 48 + n % 10);
    }
}

/// Reads the bytes of `bytes` from `from` up to `to` as a decimal numeral.
/// `None` where they are no numeral, or one of a number that a machine word
/// does not hold.
pub fn parse_decimal(bytes: &[u8], from: usize, to: usize) -> (r: Option<usize>)
    requires
        from <= to <= bytes.len(),
    ensures
        r is Some <==> is_numeral(bytes@.subrange(from as int, to as int)) && numeral_value(
            bytes@.subrange(from as int, to as int),
        ) <= usize::MAX,
        r matches Some(v) ==> v == numeral_value(bytes@.subrange(from as int, to as int)),
{
    let ghost t = bytes@.subrange(from as int, to as int);
    if from == to {
        return None;
    }
    let mut value: usize = 0;
    let mut i: usize = from;
    assert(t.take(0) =~= Seq::<u8>::empty());
    while i < to
        invariant
            from <= i <= to <= bytes.len(),
            t == bytes@.subrange(from as int, to as int),
            forall|k: int| 0 <= k < i - from ==> 48 <= #[trigger] t[k] <= 57,
            value == numeral_value(t.take(i - from)),
        decreases to - i,
    {
        let byte: u8 = bytes[i];
        assert(byte == t[i - from]);
        if byte < 48 || byte > 57 {
            return None;
        }
        let ghost longer = t.take(i - from + 1);
        proof {
            assert(longer.drop_last() =~= t.take(i - from));
            assert(longer.last() == byte);
        }
        let digit: usize = (byte - 48) as usize;
        let shifted: Option<usize> = value.checked_mul(10);
        let grown: Option<usize> = match shifted {
            Some(s) => s.checked_add(digit),
            None => None,
        };
        match grown {
            Some(v) => {
                value = v;
            },
            None => {
                proof {
                    assert(numeral_value(longer) > usize::MAX);
                    if is_numeral(t) {
                        lemma_numeral_value_grows(t, i - from + 1);
                    }
                }
                return None;
            },
        }
        i += 1;
    }
    assert(t.take(to - from) =~= t);
    Some(value)
}

} // verus!
