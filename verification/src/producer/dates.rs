//! Dates as candidates: every day number from 01 to 31 with every month
//! number from 01 to 12, for each year of a range, written `DDMMYYYY`.
//!
//! No calendar is consulted: the 31st of February is a candidate like any
//! other.

use vstd::prelude::*;
use crate::decimal::padded;
use crate::decimal::to_decimal_padded;
use crate::producer::Producer;

verus! {

/// The number of day and month pairs: 12 months of 31 days.
pub const DAYS_PER_YEAR: usize = 372;

/// The `d`-th day and month pair: the days of month 01 first, then those of
/// month 02, and so on; each as two digits of the day, two of the month.
pub open spec fn day_month(d: nat) -> Seq<u8> {
    padded(d % 31 + 1, 2) + padded(d / 31 + 1, 2)
}

/// The `g`-th date of the years from `first` on.
pub open spec fn date_at(first: nat, g: nat) -> Seq<u8> {
    day_month(g % 372) + padded(first + g / 372, 4)
}

/// All day and month pairs, in order.
pub fn pregenerate_dates() -> (results: Vec<Vec<u8>>)
    ensures
        results.len() == DAYS_PER_YEAR,
        forall|d: int| 0 <= d < 372 ==> (#[trigger] results[d])@ == day_month(d as nat),
{
    let mut results: Vec<Vec<u8>> = Vec::new();
    let mut month: usize = 1;
    while month < 13
        invariant
            1 <= month <= 13,
            results.len() == (month - 1) * 31,
            forall|d: int|
                0 <= d < results.len() ==> (#[trigger] results[d])@ == day_month(d as nat),
        decreases 13 - month,
    {
        let mut date: usize = 1;
        while date < 32
            invariant
                1 <= month < 13,
                1 <= date <= 32,
                results.len() == (month - 1) * 31 + (date - 1),
                forall|d: int|
                    0 <= d < results.len() ==> (#[trigger] results[d])@ == day_month(d as nat),
            decreases 32 - date,
        {
            let mut entry: Vec<u8> = to_decimal_padded(date, 2);
            let mut month_digits: Vec<u8> = to_decimal_padded(month, 2);
            entry.append(&mut month_digits);
            results.push(entry);
            date += 1;
        }
        month += 1;
    }
    results
}

/// Hands out the dates of the years from `start` to `end`.
pub struct DateProducer {
    current: usize,
    end: usize,
    inner: Vec<Vec<u8>>,
    counter: usize,
    exhausted: bool,
}

impl DateProducer {
    /// The year of the next date.
    pub closed spec fn year(&self) -> nat {
        self.current as nat
    }

    /// The last year of the range.
    pub closed spec fn last_year(&self) -> nat {
        self.end as nat
    }

    /// How many dates of the current year have been handed out.
    pub closed spec fn day(&self) -> nat {
        self.counter as nat
    }

    /// Whether the last date that a machine word can count has been handed
    /// out.
    pub closed spec fn exhausted(&self) -> bool {
        self.exhausted
    }

    /// The table of day and month pairs is in place.
    pub closed spec fn table_ok(&self) -> bool {
        &&& self.inner.len() == 372
        &&& forall|d: int| 0 <= d < 372 ==> (#[trigger] self.inner[d])@ == day_month(d as nat)
    }

    /// The number of years that have dates left.
    pub open spec fn years_left(&self) -> nat {
        if self.exhausted() || self.year() > self.last_year() {
            0
        } else {
            (self.last_year() - self.year() + 1) as nat
        }
    }

    /// The number of dates still to come.
    pub open spec fn remaining(&self) -> nat {
        if self.years_left() * 372 >= self.day() {
            (self.years_left() * 372 - self.day()) as nat
        } else {
            0
        }
    }

    /// What `size` estimates: 372 for each year between the current one and
    /// the last, and 372 where there is none.
    pub open spec fn estimate(&self) -> nat {
        if self.last_year() > self.year() {
            (372 * (self.last_year() - self.year())) as nat
        } else {
            372
        }
    }

    /// A producer of the dates of the years from `start` to `end`, both
    /// included; of none where `end` is before `start`.
    pub fn new(start: usize, end: usize) -> (p: DateProducer)
        ensures
            p.wf(),
            p.year() == start,
            p.last_year() == end,
            p.day() == 0,
            !p.exhausted(),
            p.pending() == Seq::new(
                if start <= end {
                    ((end - start + 1) * 372) as nat
                } else {
                    0
                },
                |k: int| date_at(start as nat, k as nat),
            ),
    {
        let dates = pregenerate_dates();
        let p = DateProducer { current: start, end, inner: dates, counter: 0, exhausted: false };
        proof {
            assert(p.pending() =~= Seq::new(
                if start <= end {
                    ((end - start + 1) * 372) as nat
                } else {
                    0
                },
                |k: int| date_at(start as nat, k as nat),
            ));
        }
        p
    }
}

impl Producer for DateProducer {
    open spec fn wf(&self) -> bool {
        &&& self.table_ok()
        &&& self.day() < 372
    }

    open spec fn pending(&self) -> Seq<Seq<u8>> {
        Seq::new(self.remaining(), |k: int| date_at(self.year(), (self.day() + k) as nat))
    }

    /// Hands out the next date. After the 372 dates of a year the next year
    /// begins; after those of the last year there is nothing left.
    fn next(&mut self) -> (r: Result<Option<Vec<u8>>, String>)
        ensures
            r is Ok,
            final(self).last_year() == old(self).last_year(),
            r matches Ok(None) ==> final(self).year() == old(self).year() && final(self).day()
                == old(self).day() && final(self).exhausted() == old(self).exhausted(),
            r matches Ok(Some(_)) ==> {
                let turns = old(self).day() == 371;
                let last = old(self).year() == usize::MAX;
                &&& final(self).day() == if turns {
                    0
                } else {
                    old(self).day() + 1
                }
                &&& final(self).year() == if turns && !last {
                    old(self).year() + 1
                } else {
                    old(self).year()
                }
                &&& final(self).exhausted() == (turns && last)
            },
    {
        if self.exhausted || self.current > self.end {
            return Ok(None);
        }
        let ghost before = self.pending();
        let ghost years = self.years_left();
        let ghost day = self.day();
        let ghost year = self.year();
        let mut password: Vec<u8> = self.inner[self.counter].clone();
        let mut digits: Vec<u8> = to_decimal_padded(self.current, 4);
        password.append(&mut digits);
        assert(password@ == date_at(year, day));
        if self.counter + 1 == DAYS_PER_YEAR {
            self.counter = 0;
            if self.current == usize::MAX {
                self.exhausted = true;
            } else {
                self.current += 1;
            }
        } else {
            self.counter += 1;
        }
        proof {
            let after = self.pending();
            assert(before.len() == years * 372 - day);
            if day == 371 {
                assert(self.years_left() == years - 1);
                assert(after.len() == (years - 1) * 372);
            } else {
                assert(self.years_left() == years);
            }
            assert(after.len() == before.len() - 1);
            assert(after =~= before.drop_first());
        }
        Ok(Some(password))
    }

    /// 372 times the number of years between the current one and the last,
    /// 372 at least, and no more than a machine word holds.
    fn size(&self) -> (n: usize)
        ensures
            n == if self.estimate() <= usize::MAX {
                self.estimate()
            } else {
                usize::MAX as nat
            },
            n >= 372,
    {
        let mut years: usize = self.end.saturating_sub(self.current);
        if years == 0 {
            years = 1;
        }
        match DAYS_PER_YEAR.checked_mul(years) {
            Some(n) => n,
            None => usize::MAX,
        }
    }
}

} // verus!
