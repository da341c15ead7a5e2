//! Words counted like an odometer whose first byte turns fastest: a word of
//! length `len` stands for the number whose base-`n` digits, least
//! significant first, are the ranks of its bytes in the alphabet.
//!
//! All words are put in one list: those of the shortest length first, each
//! length in the order of the numbers that its words stand for.

use vstd::prelude::*;
use vstd::arithmetic::div_mod::lemma_fundamental_div_mod;
use vstd::arithmetic::div_mod::lemma_fundamental_div_mod_converse;
use vstd::arithmetic::power::lemma_pow0;
use vstd::arithmetic::power::lemma_pow_positive;
use vstd::arithmetic::power::pow;
use crate::producer::alphabet::is_alphabet;
use crate::producer::alphabet::lemma_rank;
use crate::producer::alphabet::over;

verus! {

/// The number that the word `w` stands for: the rank of its first byte is
/// the least significant digit.
pub open spec fn word_value(a: Seq<u8>, w: Seq<u8>) -> nat
    decreases w.len(),
{
    if w.len() == 0 {
        0
    } else {
        (a.index_of(w[0]) + a.len() * word_value(a, w.drop_first())) as nat
    }
}

/// The word of length `len` that stands for `v`.
pub open spec fn word(a: Seq<u8>, len: nat, v: nat) -> Seq<u8>
    decreases len,
{
    if len == 0 {
        Seq::empty()
    } else {
        seq![a[(v % a.len()) as int]] + word(a, (len - 1) as nat, v / a.len())
    }
}

/// The number of words over `n` bytes whose length is at least `from` and
/// less than `to`.
pub open spec fn words_between(n: nat, from: nat, to: nat) -> nat
    decreases to,
{
    if to <= from {
        0
    } else {
        (words_between(n, from, (to - 1) as nat) + pow(n as int, (to - 1) as nat)) as nat
    }
}

/// The `k`-th word, counted from 0, in the list of all words of length
/// `len`, then all of length `len + 1`, and so on, each length in odometer
/// order.
pub open spec fn nth_word(a: Seq<u8>, len: nat, k: nat) -> Seq<u8>
    decreases k,
{
    let block = pow(a.len() as int, len);
    if k < block || block <= 0 {
        word(a, len, k)
    } else {
        nth_word(a, len + 1, (k - block) as nat)
    }
}

/// Where the word `w` stands in the list that starts with the words of
/// length `min`.
pub open spec fn position(a: Seq<u8>, min: nat, w: Seq<u8>) -> nat {
    words_between(a.len(), min, w.len()) + word_value(a, w)
}

/// The word of a number has the asked length and is over the alphabet.
pub proof fn lemma_word_shape(a: Seq<u8>, len: nat, v: nat)
    requires
        is_alphabet(a),
    ensures
        word(a, len, v).len() == len,
        over(a, word(a, len, v)),
    decreases len,
{
    if len > 0 {
        let n = a.len();
        lemma_word_shape(a, (len - 1) as nat, v / n);
        lemma_rank(a, (v % n) as int);
        let rest = word(a, (len - 1) as nat, v / n);
        let w = word(a, len, v);
        assert forall|i: int| 0 <= i < w.len() implies a.contains(#[trigger] w[i]) by {
            if i > 0 {
                assert(w[i] == rest[i - 1]);
            }
        }
    }
}

/// The word that stands for 0 holds the first byte of the alphabet alone.
pub proof fn lemma_word_of_zero(a: Seq<u8>, len: nat)
    requires
        is_alphabet(a),
    ensures
        word(a, len, 0) == Seq::new(len, |i: int| a[0]),
    decreases len,
{
    if len > 0 {
        lemma_word_of_zero(a, (len - 1) as nat);
        assert(0nat % a.len() == 0 && 0nat / a.len() == 0);
    }
    assert(word(a, len, 0) =~= Seq::new(len, |i: int| a[0]));
}

/// A word stands for a number below `n` to the power of its length.
pub proof fn lemma_word_value_bound(a: Seq<u8>, w: Seq<u8>)
    requires
        is_alphabet(a),
        over(a, w),
    ensures
        word_value(a, w) < pow(a.len() as int, w.len()),
    decreases w.len(),
{
    let n = a.len() as int;
    reveal(pow);
    if w.len() > 0 {
        let rest = w.drop_first();
        assert forall|i: int| 0 <= i < rest.len() implies a.contains(#[trigger] rest[i]) by {
            assert(rest[i] == w[i + 1]);
        }
        lemma_word_value_bound(a, rest);
        assert(a.contains(w[0]));
        let r = a.index_of(w[0]);
        let t = word_value(a, rest) as int;
        let p = pow(n, rest.len());
        assert(0 <= r < n);
        assert(t + 1 <= p);
        assert(n * (t + 1) <= n * p) by (nonlinear_arith)
            requires
                t + 1 <= p,
                n >= 1,
        ;
        assert(n * (t + 1) == n * t + n) by (nonlinear_arith);
        assert(rest.len() == w.len() - 1);
    }
}

/// Reading a word as a number and writing the number as a word of the same
/// length gives the word back.
pub proof fn lemma_word_of_value(a: Seq<u8>, w: Seq<u8>)
    requires
        is_alphabet(a),
        over(a, w),
    ensures
        word(a, w.len(), word_value(a, w)) == w,
    decreases w.len(),
{
    if w.len() > 0 {
        let n = a.len() as int;
        let rest = w.drop_first();
        assert forall|i: int| 0 <= i < rest.len() implies a.contains(#[trigger] rest[i]) by {
            assert(rest[i] == w[i + 1]);
        }
        lemma_word_of_value(a, rest);
        assert(a.contains(w[0]));
        let r = a.index_of(w[0]);
        let t = word_value(a, rest) as int;
        let v = word_value(a, w) as int;
        assert(v == r + n * t);
        assert(v == t * n + r) by (nonlinear_arith)
            requires
                v == r + n * t,
        ;
        lemma_fundamental_div_mod_converse(v, n, t, r);
        assert(w =~= seq![a[r]] + rest);
    } else {
        assert(w =~= Seq::<u8>::empty());
    }
}

/// Writing a number as a word and reading the word gives the number back.
pub proof fn lemma_value_of_word(a: Seq<u8>, len: nat, v: nat)
    requires
        is_alphabet(a),
        v < pow(a.len() as int, len),
    ensures
        word_value(a, word(a, len, v)) == v,
    decreases len,
{
    let n = a.len() as int;
    reveal(pow);
    if len > 0 {
        let w = word(a, len, v);
        let rest = word(a, (len - 1) as nat, v / a.len());
        let p = pow(n, (len - 1) as nat);
        lemma_fundamental_div_mod(v as int, n);
        assert(v as int / n < p) by (nonlinear_arith)
            requires
                v < n * p,
                n >= 1,
                v >= 0,
        ;
        lemma_value_of_word(a, (len - 1) as nat, v / a.len());
        lemma_rank(a, (v % a.len()) as int);
        assert(w.drop_first() =~= rest);
        assert(w[0] == a[(v % a.len()) as int]);
    }
}

/// Counting the words from length `from` on: first those of length `from`,
/// then the rest.
pub proof fn lemma_words_between_low(n: nat, from: nat, to: nat)
    requires
        n >= 1,
        from < to,
    ensures
        words_between(n, from, to) == pow(n as int, from) + words_between(n, from + 1, to),
    decreases to,
{
    lemma_pow_positive(n as int, (to - 1) as nat);
    lemma_pow_positive(n as int, from);
    if to > from + 1 {
        lemma_words_between_low(n, from, (to - 1) as nat);
    } else {
        assert(words_between(n, from, from) == 0);
        assert(words_between(n, from + 1, to) == 0);
    }
}

/// The counts of words add up over adjoining ranges of lengths.
pub proof fn lemma_words_between_grows(n: nat, from: nat, mid: nat, to: nat)
    requires
        n >= 1,
        from <= mid <= to,
    ensures
        words_between(n, from, mid) <= words_between(n, from, to),
    decreases to,
{
    if mid < to {
        lemma_words_between_grows(n, from, mid, (to - 1) as nat);
        lemma_pow_positive(n as int, (to - 1) as nat);
    }
}

/// The word at the position of `w` is `w`.
pub proof fn lemma_nth_word_at(a: Seq<u8>, from: nat, len: nat, v: nat)
    requires
        is_alphabet(a),
        from <= len,
        v < pow(a.len() as int, len),
    ensures
        nth_word(a, from, words_between(a.len(), from, len) + v) == word(a, len, v),
    decreases len - from,
{
    let n = a.len();
    if from < len {
        lemma_words_between_low(n, from, len);
        lemma_pow_positive(n as int, from);
        lemma_nth_word_at(a, from + 1, len, v);
        let k = words_between(n, from, len) + v;
        let block = pow(n as int, from);
        assert(k >= block);
        assert((k - block) as nat == words_between(n, from + 1, len) + v);
    } else {
        assert(words_between(n, from, len) == 0);
    }
}

/// The word at the position of `w`, in the list that starts at length
/// `min`, is `w`.
pub proof fn lemma_nth_word_position(a: Seq<u8>, min: nat, w: Seq<u8>)
    requires
        is_alphabet(a),
        over(a, w),
        min <= w.len(),
    ensures
        nth_word(a, min, position(a, min, w)) == w,
{
    lemma_word_value_bound(a, w);
    lemma_nth_word_at(a, min, w.len(), word_value(a, w));
    lemma_word_of_value(a, w);
}

/// A word of the alphabet's first byte alone stands for 0.
pub proof fn lemma_value_all_first(a: Seq<u8>, w: Seq<u8>)
    requires
        is_alphabet(a),
        forall|i: int| 0 <= i < w.len() ==> w[i] == a[0],
    ensures
        word_value(a, w) == 0,
        over(a, w),
    decreases w.len(),
{
    lemma_rank(a, 0);
    if w.len() > 0 {
        lemma_value_all_first(a, w.drop_first());
        assert(a.len() * word_value(a, w.drop_first()) == 0);
    }
}

/// A word of the alphabet's last byte alone stands for the largest number
/// of its length.
pub proof fn lemma_value_all_last(a: Seq<u8>, w: Seq<u8>)
    requires
        is_alphabet(a),
        forall|i: int| 0 <= i < w.len() ==> w[i] == a[a.len() - 1],
    ensures
        word_value(a, w) + 1 == pow(a.len() as int, w.len()),
    decreases w.len(),
{
    let n = a.len() as int;
    reveal(pow);
    lemma_rank(a, n - 1);
    if w.len() > 0 {
        let rest = w.drop_first();
        lemma_value_all_last(a, rest);
        let t = word_value(a, rest) as int;
        assert(n * (t + 1) == n * t + n) by (nonlinear_arith);
        assert(rest.len() == w.len() - 1);
    }
}

/// One turn of the odometer that stops at index `i`: the bytes before `i`
/// fall back from the last to the first byte of the alphabet, the byte at
/// `i` moves on by one rank, and the number goes up by one.
pub proof fn lemma_turn(a: Seq<u8>, before: Seq<u8>, after: Seq<u8>, i: int)
    requires
        is_alphabet(a),
        over(a, before),
        0 <= i < before.len(),
        after.len() == before.len(),
        forall|j: int| 0 <= j < i ==> before[j] == a[a.len() - 1] && after[j] == a[0],
        a.index_of(before[i]) + 1 < a.len(),
        after[i] == a[a.index_of(before[i]) + 1],
        forall|j: int| i < j < before.len() ==> after[j] == before[j],
    ensures
        word_value(a, after) == word_value(a, before) + 1,
        over(a, after),
    decreases i,
{
    let n = a.len() as int;
    assert(a.contains(before[i]));
    let r = a.index_of(before[i]);
    lemma_rank(a, r + 1);
    lemma_rank(a, 0);
    lemma_rank(a, n - 1);
    assert forall|j: int| 0 <= j < after.len() implies a.contains(#[trigger] after[j]) by {
        if j > i {
            assert(a.contains(before[j]));
        }
    }
    let b_rest = before.drop_first();
    let a_rest = after.drop_first();
    if i == 0 {
        assert(a_rest =~= b_rest);
    } else {
        assert forall|j: int| 0 <= j < b_rest.len() implies a.contains(#[trigger] b_rest[j]) by {
            assert(b_rest[j] == before[j + 1]);
        }
        lemma_turn(a, b_rest, a_rest, i - 1);
        let t = word_value(a, b_rest) as int;
        assert(n * (t + 1) == n * t + n) by (nonlinear_arith);
    }
}

/// `n` to the power of `e`, or `None` where that is more than a machine
/// word holds.
pub fn power_capped(n: usize, e: u32) -> (p: Option<usize>)
    ensures
        match p {
            Some(v) => v == pow(n as int, e as nat),
            None => pow(n as int, e as nat) > usize::MAX,
        },
{
    if n == 0 {
        proof {
            lemma_pow0(0);
            if e > 0 {
                vstd::arithmetic::power::lemma0_pow(e as nat);
            }
        }
        return Some(if e == 0 {
            1
        } else {
            0
        });
    }
    if n == 1 {
        proof {
            vstd::arithmetic::power::lemma1_pow(e as nat);
        }
        return Some(1);
    }
    let mut p: usize = 1;
    let mut k: u32 = 0;
    proof {
        lemma_pow0(n as int);
    }
    while k < e
        invariant
            k <= e,
            n >= 2,
            p == pow(n as int, k as nat),
        decreases e - k,
    {
        proof {
            reveal(pow);
            assert(pow(n as int, (k + 1) as nat) == n * pow(n as int, k as nat));
            assert(p * n == n * p) by (nonlinear_arith);
        }
        match p.checked_mul(n) {
            Some(q) => {
                p = q;
            },
            None => {
                proof {
                    vstd::arithmetic::power::lemma_pow_increases(
                        n as nat,
                        (k + 1) as nat,
                        e as nat,
                    );
                }
                return None;
            },
        }
        k += 1;
    }
    Some(p)
}

/// The length of the `k`-th word of the list that starts at length `len`.
pub open spec fn nth_len(n: nat, len: nat, k: nat) -> nat
    decreases k,
{
    let block = pow(n as int, len);
    if k < block || block <= 0 {
        len
    } else {
        nth_len(n, len + 1, (k - block) as nat)
    }
}

/// The `k`-th word is the word of its length that stands for `k` less the
/// number of shorter words.
pub proof fn lemma_nth_word_parts(a: Seq<u8>, from: nat, k: nat)
    requires
        is_alphabet(a),
    ensures
        from <= nth_len(a.len(), from, k),
        words_between(a.len(), from, nth_len(a.len(), from, k)) <= k,
        k - words_between(a.len(), from, nth_len(a.len(), from, k)) < pow(
            a.len() as int,
            nth_len(a.len(), from, k),
        ),
        nth_word(a, from, k) == word(
            a,
            nth_len(a.len(), from, k),
            (k - words_between(a.len(), from, nth_len(a.len(), from, k))) as nat,
        ),
        nth_word(a, from, k).len() == nth_len(a.len(), from, k),
    decreases k,
{
    let n = a.len();
    let block = pow(n as int, from);
    lemma_pow_positive(n as int, from);
    if k < block {
        assert(words_between(n, from, from) == 0);
        lemma_word_shape(a, from, k);
    } else {
        let rest = (k - block) as nat;
        lemma_nth_word_parts(a, from + 1, rest);
        let len = nth_len(n, from + 1, rest);
        lemma_words_between_low(n, from, len);
        lemma_word_shape(a, len, (rest - words_between(n, from + 1, len)) as nat);
    }
}

/// Words at different places of the list differ.
pub proof fn lemma_nth_word_injective(a: Seq<u8>, from: nat, j: nat, k: nat)
    requires
        is_alphabet(a),
        j != k,
    ensures
        nth_word(a, from, j) != nth_word(a, from, k),
{
    let n = a.len();
    lemma_nth_word_parts(a, from, j);
    lemma_nth_word_parts(a, from, k);
    let lj = nth_len(n, from, j);
    let lk = nth_len(n, from, k);
    if lj == lk {
        let vj = (j - words_between(n, from, lj)) as nat;
        let vk = (k - words_between(n, from, lk)) as nat;
        lemma_value_of_word(a, lj, vj);
        lemma_value_of_word(a, lk, vk);
    }
}

/// A word that comes later in the list is at least as long.
pub proof fn lemma_nth_len_grows(a: Seq<u8>, from: nat, j: nat, k: nat)
    requires
        is_alphabet(a),
        j <= k,
    ensures
        nth_word(a, from, j).len() <= nth_word(a, from, k).len(),
{
    let n = a.len();
    lemma_nth_word_parts(a, from, j);
    lemma_nth_word_parts(a, from, k);
    let lj = nth_len(n, from, j);
    let lk = nth_len(n, from, k);
    if lk < lj {
        lemma_words_between_grows(n, from, lk + 1, lj);
        lemma_pow_positive(n as int, lk);
    }
}

} // verus!
