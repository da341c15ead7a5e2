//! Candidate producers: each one is a search strategy that hands out
//! password candidates one at a time.

use vstd::prelude::*;

pub mod alphabet;
pub mod any;
pub mod custom_query;
pub mod dates;
pub mod default_query;
pub mod dictionary;
pub mod number_ranges;
pub mod odometer;

verus! {

/// A source of password candidates.
///
/// A producer is described by `pending`: the candidates it has yet to hand
/// out, in order. `next` takes the head of that sequence; once the sequence
/// is empty it reports exhaustion, and keeps doing so.
///
/// A producer that is written without proofs leaves `wf` and `pending` as
/// they stand here. Nothing is then known of what it hands out.
pub trait Producer {
    /// The producer's internal invariant.
    open spec fn wf(&self) -> bool {
        true
    }

    /// The candidates still to come, first one first.
    open spec fn pending(&self) -> Seq<Seq<u8>> {
        Seq::empty()
    }

    /// Hands out the next candidate, `None` when there is none left.
    ///
    /// An error leaves at most as many candidates pending as there were.
    fn next(&mut self) -> (r: Result<Option<Vec<u8>>, String>)
        requires
            old(self).wf(),
        ensures
            final(self).wf(),
            r matches Ok(Some(c)) ==> old(self).pending().len() > 0 && c@ == old(
                self,
            ).pending().first() && final(self).pending() == old(self).pending().drop_first(),
            r matches Ok(None) ==> old(self).pending().len() == 0 && final(self).pending().len()
                == 0,
            r is Err ==> final(self).pending().len() <= old(self).pending().len(),
    ;

    /// An estimate of the size of the search space, for progress reports.
    fn size(&self) -> (n: usize)
        requires
            self.wf(),
    ;
}

} // verus!
