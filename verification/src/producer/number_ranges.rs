//! The numbers of a range as candidates, in increasing order.

use vstd::prelude::*;
use crate::decimal::decimal;
use crate::decimal::padded;
use crate::decimal::decimal_width;
use crate::decimal::to_decimal_padded;
use crate::producer::Producer;

verus! {

/// Hands out the numbers from a lower to an upper bound as decimal numerals.
pub struct RangeProducer {
    padding_len: usize,
    next: usize,
    upper: usize,
    done: bool,
}

impl RangeProducer {
    /// The number that is handed out next.
    pub closed spec fn cursor(&self) -> nat {
        self.next as nat
    }

    /// The last number of the range.
    pub closed spec fn upper(&self) -> nat {
        self.upper as nat
    }

    /// The least number of bytes of a candidate; shorter numerals get
    /// leading zeros.
    pub closed spec fn width(&self) -> nat {
        self.padding_len as nat
    }

    /// Whether the last number that a machine word holds has been handed
    /// out.
    pub closed spec fn done(&self) -> bool {
        self.done
    }

    /// The number of candidates still to come.
    pub open spec fn remaining(&self) -> nat {
        if self.done() || self.cursor() > self.upper() {
            0
        } else {
            (self.upper() - self.cursor() + 1) as nat
        }
    }

    /// A producer of the numbers from `lower_bound` to `upper_bound`, both
    /// included. With `add_preceding_zeros` every numeral is as wide as that
    /// of `upper_bound`.
    pub fn new(add_preceding_zeros: bool, lower_bound: usize, upper_bound: usize) -> (p:
        RangeProducer)
        ensures
            p.wf(),
            p.cursor() == lower_bound,
            p.upper() == upper_bound,
            !p.done(),
            p.width() == if add_preceding_zeros {
                decimal(upper_bound as nat).len()
            } else {
                0
            },
            p.pending() == Seq::new(
                if lower_bound <= upper_bound {
                    (upper_bound - lower_bound + 1) as nat
                } else {
                    0
                },
                |k: int|
                    if add_preceding_zeros {
                        padded((lower_bound + k) as nat, decimal(upper_bound as nat).len())
                    } else {
                        decimal((lower_bound + k) as nat)
                    },
            ),
    {
        let padding_len: usize = if add_preceding_zeros {
            decimal_width(upper_bound)
        } else {
            0
        };
        let p = RangeProducer { padding_len, next: lower_bound, upper: upper_bound, done: false };
        proof {
            assert(p.pending() =~= Seq::new(
                if lower_bound <= upper_bound {
                    (upper_bound - lower_bound + 1) as nat
                } else {
                    0
                },
                |k: int|
                    if add_preceding_zeros {
                        padded((lower_bound + k) as nat, decimal(upper_bound as nat).len())
                    } else {
                        decimal((lower_bound + k) as nat)
                    },
            ));
        }
        p
    }
}

impl Producer for RangeProducer {
    open spec fn wf(&self) -> bool {
        true
    }

    open spec fn pending(&self) -> Seq<Seq<u8>> {
        Seq::new(self.remaining(), |k: int| padded((self.cursor() + k) as nat, self.width()))
    }

    /// Hands out the numeral of the next number of the range.
    fn next(&mut self) -> (r: Result<Option<Vec<u8>>, String>)
        ensures
            r is Ok,
            final(self).upper() == old(self).upper(),
            final(self).width() == old(self).width(),
            r matches Ok(None) ==> final(self).cursor() == old(self).cursor() && final(self).done()
                == old(self).done(),
            r matches Ok(Some(_)) ==> {
                let last = old(self).cursor() == usize::MAX;
                &&& final(self).done() == last
                &&& final(self).cursor() == if last {
                    old(self).cursor()
                } else {
                    old(self).cursor() + 1
                }
            },
    {
        if self.done || self.next > self.upper {
            return Ok(None);
        }
        let ghost before = self.pending();
        let data: Vec<u8> = to_decimal_padded(self.next, self.padding_len);
        if self.next == usize::MAX {
            self.done = true;
        } else {
            self.next += 1;
        }
        assert(self.pending() =~= before.drop_first());
        Ok(Some(data))
    }

    /// The number of candidates still to come, and no more than a machine
    /// word holds.
    fn size(&self) -> (n: usize)
        ensures
            n == if self.remaining() <= usize::MAX {
                self.remaining()
            } else {
                usize::MAX as nat
            },
    {
        if self.done || self.next > self.upper {
            0
        } else {
            (self.upper - self.next).saturating_add(1)
        }
    }
}

} // verus!
