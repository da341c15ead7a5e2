//! Brute force over an alphabet: every word of the shortest length, then
//! every word of the next length, and so on.

use vstd::prelude::*;
use vstd::arithmetic::power::pow;
use vstd::arithmetic::power::lemma_pow_positive;
use crate::producer::alphabet::is_alphabet;
use crate::producer::alphabet::lemma_dense;
use crate::producer::alphabet::lemma_rank;
use crate::producer::alphabet::over;
use crate::producer::alphabet::printable;
use crate::producer::alphabet::push_band;
use crate::producer::alphabet::rank_in;
use crate::producer::alphabet::sorted_set;
use crate::producer::odometer::lemma_nth_len_grows;
use crate::producer::odometer::lemma_nth_word_at;
use crate::producer::odometer::lemma_nth_word_injective;
use crate::producer::odometer::lemma_nth_word_parts;
use crate::producer::odometer::lemma_nth_word_position;
use crate::producer::odometer::lemma_turn;
use crate::producer::odometer::lemma_value_all_first;
use crate::producer::odometer::lemma_value_all_last;
use crate::producer::odometer::lemma_word_of_value;
use crate::producer::odometer::lemma_word_of_zero;
use crate::producer::odometer::lemma_word_shape;
use crate::producer::odometer::lemma_word_value_bound;
use crate::producer::odometer::lemma_words_between_grows;
use crate::producer::odometer::lemma_words_between_low;
use crate::producer::odometer::nth_len;
use crate::producer::odometer::nth_word;
use crate::producer::odometer::position;
use crate::producer::odometer::power_capped;
use crate::producer::odometer::word_value;
use crate::producer::odometer::words_between;
use crate::producer::Producer;

verus! {

/// Brute force over an alphabet, shortest words first.
pub struct DefaultQuery {
    min_length: u32,
    max_length: u32,
    current: Vec<u8>,
    char_set: Vec<u8>,
    rolled: bool,
}

impl DefaultQuery {
    /// The alphabet, in increasing order.
    pub closed spec fn alphabet(&self) -> Seq<u8> {
        self.char_set@
    }

    /// The length of the shortest words.
    pub closed spec fn min_len(&self) -> nat {
        self.min_length as nat
    }

    /// The length asked for the longest words.
    pub closed spec fn max_len(&self) -> nat {
        self.max_length as nat
    }

    /// The word handed out last; at the start, the word that comes before
    /// the first one.
    pub closed spec fn cursor(&self) -> Seq<u8> {
        self.current@
    }

    /// Whether the last word of the run has been handed out.
    pub closed spec fn rolled(&self) -> bool {
        self.rolled
    }

    /// The length at which the odometer stops growing: `max_len`, or
    /// `min_len` where that is greater.
    pub open spec fn top(&self) -> nat {
        if self.max_len() >= self.min_len() {
            self.max_len()
        } else {
            self.min_len()
        }
    }

    /// The number of candidates of a whole run.
    pub open spec fn total(&self) -> nat {
        words_between(self.alphabet().len(), self.min_len(), self.top() + 1)
    }

    /// The number of candidates handed out so far.
    pub open spec fn handed_out(&self) -> nat {
        position(self.alphabet(), self.min_len(), self.cursor())
    }

    /// The number of candidates still to come.
    pub open spec fn remaining(&self) -> nat {
        if self.total() >= self.handed_out() {
            (self.total() - self.handed_out()) as nat
        } else {
            0
        }
    }

    /// The size of the search space: the number of words whose length is
    /// from `min_len` to `max_len`.
    pub open spec fn estimate(&self) -> nat {
        words_between(self.alphabet().len(), self.min_len(), self.max_len() + 1)
    }

    /// Nothing has been handed out yet.
    pub open spec fn fresh(&self) -> bool {
        &&& !self.rolled()
        &&& self.cursor() == Seq::new(self.min_len(), |i: int| self.alphabet()[0])
    }
}

impl DefaultQuery {
    /// A query over the printable ASCII bytes: words of `min_length` bytes
    /// first, the last ones of `max_length` bytes.
    pub fn new(max_length: u32, min_length: u32) -> (q: DefaultQuery)
        ensures
            q.wf(),
            q.fresh(),
            q.alphabet() == printable(),
            q.min_len() == min_length,
            q.max_len() == max_length,
            q.pending() == Seq::new(
                q.total(),
                |i: int| nth_word(printable(), min_length as nat, (1 + i) as nat),
            ),
    {
        let mut bands: Vec<u8> = Vec::new();
        push_band(&mut bands, 48, 57);
        push_band(&mut bands, 65, 90);
        push_band(&mut bands, 97, 122);
        push_band(&mut bands, 33, 47);
        push_band(&mut bands, 58, 64);
        push_band(&mut bands, 91, 96);
        push_band(&mut bands, 123, 126);
        let char_set = sorted_set(&bands);
        proof {
            assert forall|b: u8| char_set@.contains(b) <==> 33 <= b <= 126 by {
                assert(!Seq::<u8>::empty().contains(b));
            }
            lemma_dense(char_set@, 33, 126);
        }
        Self::start(char_set, max_length, min_length)
    }

    /// A query over the bytes of `alphabet`, put in order, each one once.
    /// `None` where `alphabet` is empty.
    pub fn with_alphabet(alphabet: &Vec<u8>, max_length: u32, min_length: u32) -> (r: Option<
        DefaultQuery,
    >)
        ensures
            r is Some <==> alphabet.len() > 0,
            r matches Some(q) ==> {
                &&& q.wf()
                &&& q.fresh()
                &&& is_alphabet(q.alphabet())
                &&& forall|b: u8| q.alphabet().contains(b) <==> alphabet@.contains(b)
                &&& q.min_len() == min_length
                &&& q.max_len() == max_length
                &&& q.pending() == Seq::new(
                    q.total(),
                    |i: int| nth_word(q.alphabet(), min_length as nat, (1 + i) as nat),
                )
            },
    {
        if alphabet.len() == 0 {
            return None;
        }
        let char_set = sorted_set(alphabet);
        proof {
            assert(char_set@.contains(alphabet[0]));
            let k = char_set@.index_of(alphabet[0]);
            assert(char_set.len() > k);
        }
        Some(Self::start(char_set, max_length, min_length))
    }

    /// The state before the first call of `next`.
    fn start(char_set: Vec<u8>, max_length: u32, min_length: u32) -> (q: DefaultQuery)
        requires
            is_alphabet(char_set@),
        ensures
            q.wf(),
            q.fresh(),
            q.alphabet() == char_set@,
            q.min_len() == min_length,
            q.max_len() == max_length,
            q.pending() == Seq::new(
                q.total(),
                |i: int| nth_word(char_set@, min_length as nat, (1 + i) as nat),
            ),
    {
        let first: u8 = char_set[0];
        let mut current: Vec<u8> = Vec::new();
        let mut i: u32 = 0;
        while i < min_length
            invariant
                i <= min_length,
                current.len() == i,
                forall|k: int| 0 <= k < current.len() ==> current[k] == first,
            decreases min_length - i,
        {
            current.push(first);
            i += 1;
        }
        let q = DefaultQuery { min_length, max_length, current, char_set, rolled: false };
        proof {
            assert(q.cursor() =~= Seq::new(q.min_len(), |i: int| q.alphabet()[0]));
            lemma_value_all_first(q.alphabet(), q.cursor());
            assert(words_between(q.alphabet().len(), q.min_len(), q.min_len()) == 0);
            assert(q.handed_out() == 0);
            lemma_words_between_grows(
                q.alphabet().len(),
                q.min_len(),
                q.min_len(),
                q.top() + 1,
            );
            assert(q.pending() =~= Seq::new(
                q.total(),
                |i: int| nth_word(char_set@, min_length as nat, (1 + i) as nat),
            ));
        }
        q
    }
}

impl Producer for DefaultQuery {
    open spec fn wf(&self) -> bool {
        &&& is_alphabet(self.alphabet())
        &&& over(self.alphabet(), self.cursor())
        &&& self.min_len() <= self.cursor().len() <= self.top() + 1
        &&& self.rolled() <==> self.cursor().len() == self.top() + 1
        &&& self.rolled() ==> forall|i: int|
            0 <= i < self.cursor().len() ==> self.cursor()[i] == self.alphabet()[0]
    }

    open spec fn pending(&self) -> Seq<Seq<u8>> {
        Seq::new(
            self.remaining(),
            |i: int| nth_word(self.alphabet(), self.min_len(), (self.handed_out() + 1 + i) as nat),
        )
    }

    /// Turns the odometer by one and hands out the word it shows. The word
    /// after the last one of `max_len` bytes is one byte longer; it is handed
    /// out too, and ends the run.
    fn next(&mut self) -> (r: Result<Option<Vec<u8>>, String>)
        ensures
            r is Ok,
            r matches Ok(Some(c)) ==> c@ == final(self).cursor(),
            final(self).alphabet() == old(self).alphabet(),
            final(self).min_len() == old(self).min_len(),
            final(self).max_len() == old(self).max_len(),
    {
        let ghost a = self.char_set@;
        let ghost before = self.current@;
        let ghost min = self.min_len();
        proof {
            if self.rolled {
                lemma_value_all_first(a, before);
                assert(self.handed_out() == self.total());
            }
        }
        if self.rolled {
            return Ok(None);
        }
        let n: usize = self.char_set.len();
        let mut stopped: bool = false;
        let mut i: usize = 0;
        while i < self.current.len()
            invariant_except_break
                !stopped,
                forall|j: int| 0 <= j < i ==> #[trigger] before[j] == a[n - 1],
                forall|j: int| 0 <= j < i ==> #[trigger] self.current[j] == a[0],
            invariant
                i <= self.current.len(),
                self.current.len() == before.len(),
                self.char_set@ == a,
                n == a.len(),
                is_alphabet(a),
                over(a, before),
                !self.rolled,
                self.min_length == old(self).min_length,
                self.max_length == old(self).max_length,
                forall|j: int| i <= j < before.len() && !stopped ==> self.current[j] == before[j],
            ensures
                stopped ==> word_value(a, self.current@) == word_value(a, before) + 1 && over(
                    a,
                    self.current@,
                ),
                !stopped ==> forall|j: int|
                    0 <= j < before.len() ==> #[trigger] before[j] == a[n - 1],
                !stopped ==> forall|j: int|
                    0 <= j < before.len() ==> #[trigger] self.current[j] == a[0],
            decreases self.current.len() - i,
        {
            let ghost here = self.current@;
            let spot: usize = match rank_in(&self.char_set, self.current[i]) {
                Some(spot) => spot,
                None => {
                    assert(a.contains(before[i as int]));
                    return Err("Couldn't find character in character set".to_string());
                },
            };
            proof {
                lemma_rank(a, spot as int);
            }
            if spot >= n - 1 {
                self.current.set(i, self.char_set[0]);
            } else {
                self.current.set(i, self.char_set[spot + 1]);
                stopped = true;
                proof {
                    let after = self.current@;
                    assert(after == here.update(i as int, a[spot + 1]));
                    assert forall|j: int| 0 <= j < i implies before[j] == a[a.len() - 1]
                        && after[j] == a[0] by {
                        assert(after[j] == here[j]);
                        assert(before[j] == a[n - 1]);
                    }
                    assert forall|j: int| i < j < before.len() implies after[j] == before[j] by {
                        assert(after[j] == here[j]);
                    }
                    lemma_turn(a, before, after, i as int);
                }
                break;
            }
            i += 1;
        }
        if !stopped {
            let ghost wrapped = self.current@;
            self.current.insert(0, self.char_set[0]);
            proof {
                let grown = self.current@;
                assert(grown == wrapped.insert(0, a[0]));
                assert forall|j: int| 0 <= j < grown.len() implies grown[j] == a[0] by {
                    if j > 0 {
                        assert(grown[j] == wrapped[j - 1]);
                    }
                }
                lemma_value_all_last(a, before);
                lemma_value_all_first(a, grown);
                lemma_pow_positive(a.len() as int, before.len());
            }
            if self.current.len() > self.max_length as usize {
                self.rolled = true;
            }
        }
        proof {
            assert(self.handed_out() == old(self).handed_out() + 1);
            lemma_nth_word_position(a, min, self.current@);
            lemma_word_value_bound(a, self.current@);
            if !self.rolled {
                lemma_words_between_grows(
                    a.len(),
                    min,
                    self.current@.len() + 1,
                    self.top() + 1,
                );
            }
            lemma_word_value_bound(a, before);
            lemma_words_between_grows(a.len(), min, before.len() + 1, old(self).top() + 1);
            assert(final(self).pending() =~= old(self).pending().drop_first());
        }
        Ok(Some(self.current.clone()))
    }

    /// The number of words whose length is from `min_len` to `max_len`, or
    /// the largest machine word where the number is greater.
    fn size(&self) -> (n: usize)
        ensures
            n == if self.estimate() <= usize::MAX {
                self.estimate()
            } else {
                usize::MAX as nat
            },
    {
        let n: usize = self.char_set.len();
        let ghost from = self.min_length as nat;
        let ghost to = (self.max_length + 1) as nat;
        if self.min_length > self.max_length {
            return 0;
        }
        let mut power: usize = match power_capped(n, self.min_length) {
            Some(p) => p,
            None => {
                proof {
                    lemma_words_between_low(n as nat, from, to);
                }
                return usize::MAX;
            },
        };
        let mut total: usize = 0;
        let mut len: u32 = self.min_length;
        loop
            invariant
                n >= 1,
                from == self.min_length,
                to == self.max_length + 1,
                self.estimate() == words_between(n as nat, from, to),
                from <= len < to,
                power == pow(n as int, len as nat),
                total == words_between(n as nat, from, len as nat),
            decreases self.max_length - len,
        {
            proof {
                lemma_words_between_grows(n as nat, from, (len + 1) as nat, to);
            }
            total = match total.checked_add(power) {
                Some(t) => t,
                None => {
                    return usize::MAX;
                },
            };
            if len == self.max_length {
                return total;
            }
            proof {
                reveal(pow);
                assert(pow(n as int, (len + 1) as nat) == n * pow(n as int, len as nat));
                assert(power * n == n * power) by (nonlinear_arith);
                lemma_words_between_grows(n as nat, from, (len + 2) as nat, to);
                lemma_pow_positive(n as int, (len + 1) as nat);
            }
            power = match power.checked_mul(n) {
                Some(p) => p,
                None => {
                    return usize::MAX;
                },
            };
            len += 1;
        }
    }
}

impl DefaultQuery {
    /// No candidate comes twice: any two of the candidates still to come
    /// differ.
    pub proof fn lemma_no_repeats(self, i: int, j: int)
        requires
            self.wf(),
            0 <= i < j < self.pending().len(),
        ensures
            self.pending()[i] != self.pending()[j],
    {
        lemma_nth_word_injective(
            self.alphabet(),
            self.min_len(),
            (self.handed_out() + 1 + i) as nat,
            (self.handed_out() + 1 + j) as nat,
        );
    }

    /// A run from a fresh query with `min_len <= max_len` hands out as many
    /// candidates as `size` estimates.
    pub proof fn lemma_count_is_estimate(self)
        requires
            self.wf(),
            self.fresh(),
            self.min_len() <= self.max_len(),
        ensures
            self.pending().len() == self.estimate(),
    {
        lemma_value_all_first(self.alphabet(), self.cursor());
        assert(words_between(self.alphabet().len(), self.min_len(), self.min_len()) == 0);
    }

    /// Shorter candidates come first: of any two candidates still to come,
    /// the later one is at least as long.
    pub proof fn lemma_lengths_grow(self, i: int, j: int)
        requires
            self.wf(),
            0 <= i <= j < self.pending().len(),
        ensures
            self.pending()[i].len() <= self.pending()[j].len(),
    {
        lemma_nth_len_grows(
            self.alphabet(),
            self.min_len(),
            (self.handed_out() + 1 + i) as nat,
            (self.handed_out() + 1 + j) as nat,
        );
    }

    /// The candidates still to come are as long as `min_len` at least and
    /// one byte longer than `top` at most; only the last one of a run is
    /// longer than `top`.
    pub proof fn lemma_lengths_in_range(self, i: int)
        requires
            self.wf(),
            0 <= i < self.pending().len(),
        ensures
            self.min_len() <= self.pending()[i].len() <= self.top() + 1,
            self.pending()[i].len() == self.top() + 1 ==> i == self.pending().len() - 1,
    {
        let a = self.alphabet();
        let n = a.len();
        let k = (self.handed_out() + 1 + i) as nat;
        assert(self.pending().len() == self.remaining());
        assert(k <= self.total());
        assert(self.pending()[i] == nth_word(a, self.min_len(), k));
        lemma_nth_word_parts(a, self.min_len(), k);
        let len = nth_len(n, self.min_len(), k);
        if len > self.top() + 1 {
            lemma_words_between_grows(n, self.min_len(), self.top() + 2, len);
            lemma_pow_positive(n as int, self.top() + 1);
            assert(words_between(n, self.min_len(), self.top() + 2) == words_between(
                n,
                self.min_len(),
                self.top() + 1,
            ) + pow(n as int, self.top() + 1));
        }
    }

    /// The last candidate of a run is one byte longer than `top`, and holds
    /// the first byte of the alphabet alone.
    pub proof fn lemma_last_candidate(self)
        requires
            self.wf(),
            self.pending().len() > 0,
        ensures
            self.pending().last() == Seq::new(self.top() + 1, |i: int| self.alphabet()[0]),
    {
        let a = self.alphabet();
        lemma_pow_positive(a.len() as int, self.top() + 1);
        lemma_nth_word_at(a, self.min_len(), self.top() + 1, 0);
        lemma_word_of_zero(a, self.top() + 1);
    }

    /// Every candidate still to come is a word over the alphabet.
    pub proof fn lemma_candidates_over_alphabet(self, i: int)
        requires
            self.wf(),
            0 <= i < self.pending().len(),
        ensures
            over(self.alphabet(), self.pending()[i]),
    {
        let a = self.alphabet();
        let k = (self.handed_out() + 1 + i) as nat;
        lemma_nth_word_parts(a, self.min_len(), k);
        let len = nth_len(a.len(), self.min_len(), k);
        lemma_word_shape(
            a,
            len,
            (k - words_between(a.len(), self.min_len(), len)) as nat,
        );
    }

    /// A fresh run leaves out no word: every word over the alphabet that is
    /// `min_len` to `max_len` bytes long is among the candidates, but for
    /// the word that the run starts from, `min_len` times the first byte of
    /// the alphabet.
    pub proof fn lemma_covers(self, w: Seq<u8>) -> (i: int)
        requires
            self.wf(),
            self.fresh(),
            over(self.alphabet(), w),
            self.min_len() <= w.len() <= self.max_len(),
            w != self.cursor(),
        ensures
            0 <= i < self.pending().len(),
            self.pending()[i] == w,
    {
        let a = self.alphabet();
        let n = a.len();
        let min = self.min_len();
        lemma_value_all_first(a, self.cursor());
        assert(words_between(n, min, min) == 0);
        assert(self.handed_out() == 0);
        let place = position(a, min, w);
        lemma_nth_word_position(a, min, w);
        lemma_word_value_bound(a, w);
        lemma_words_between_grows(n, min, w.len() + 1, self.top() + 1);
        assert(place < self.total());
        if place == 0 {
            lemma_words_between_grows(n, min, min, w.len());
            if w.len() > min {
                lemma_words_between_grows(n, min, min + 1, w.len());
                lemma_pow_positive(n as int, min);
                assert(words_between(n, min, min + 1) == words_between(n, min, min) + pow(
                    n as int,
                    min,
                ));
            }
            assert(w.len() == min);
            lemma_word_of_value(a, w);
            lemma_word_of_value(a, self.cursor());
            assert(w == self.cursor());
        }
        assert(self.pending().len() == self.total());
        place - 1
    }
}

} // verus!
