//! The producer of a run, whichever strategy was asked for.

use vstd::prelude::*;
use vstd::utf8::encode_utf8;
use crate::arguments::Method;
use crate::decimal::decimal;
use crate::decimal::padded;
use crate::producer::Producer;
use crate::producer::alphabet::printable;
use crate::producer::custom_query::CustomQuery;
use crate::producer::custom_query::TemplateError;
use crate::producer::custom_query::combos;
use crate::producer::custom_query::expand;
use crate::producer::custom_query::parse_template;
use crate::producer::dates::DateProducer;
use crate::producer::dates::date_at;
use crate::producer::default_query::DefaultQuery;
use crate::producer::dictionary::LineProducer;
use crate::producer::number_ranges::RangeProducer;
use crate::producer::odometer::nth_word;

verus! {

/// One of the five producers.
pub enum AnyProducer {
    /// The lines of a word list.
    Wordlist(LineProducer),
    /// The numbers of a range.
    Range(RangeProducer),
    /// The candidates of a template.
    CustomQuery(CustomQuery),
    /// The dates of a range of years.
    Date(DateProducer),
    /// Every word over the printable characters.
    DefaultQuery(DefaultQuery),
}

impl AnyProducer {
    /// What `size` estimates: for a word list and a range the number of
    /// candidates still to come, for a template the number of its
    /// candidates, for dates and brute force the size of the search space
    /// as the strategy reckons it.
    pub open spec fn estimate(&self) -> nat {
        match self {
            AnyProducer::Wordlist(p) => p.pending().len(),
            AnyProducer::Range(p) => p.remaining(),
            AnyProducer::CustomQuery(p) => combos(p.parts()),
            AnyProducer::Date(p) => p.estimate(),
            AnyProducer::DefaultQuery(p) => p.estimate(),
        }
    }
}

impl Producer for AnyProducer {
    open spec fn wf(&self) -> bool {
        match self {
            AnyProducer::Wordlist(p) => p.wf(),
            AnyProducer::Range(p) => p.wf(),
            AnyProducer::CustomQuery(p) => p.wf(),
            AnyProducer::Date(p) => p.wf(),
            AnyProducer::DefaultQuery(p) => p.wf(),
        }
    }

    open spec fn pending(&self) -> Seq<Seq<u8>> {
        match self {
            AnyProducer::Wordlist(p) => p.pending(),
            AnyProducer::Range(p) => p.pending(),
            AnyProducer::CustomQuery(p) => p.pending(),
            AnyProducer::Date(p) => p.pending(),
            AnyProducer::DefaultQuery(p) => p.pending(),
        }
    }

    /// Hands out the next candidate of the producer inside.
    fn next(&mut self) -> (r: Result<Option<Vec<u8>>, String>)
        ensures
            r is Ok,
    {
        match self {
            AnyProducer::Wordlist(p) => p.next(),
            AnyProducer::Range(p) => p.next(),
            AnyProducer::CustomQuery(p) => p.next(),
            AnyProducer::Date(p) => p.next(),
            AnyProducer::DefaultQuery(p) => p.next(),
        }
    }

    /// The estimate of the producer inside.
    fn size(&self) -> (n: usize)
        ensures
            n == if self.estimate() <= usize::MAX {
                self.estimate()
            } else {
                usize::MAX as nat
            },
    {
        match self {
            AnyProducer::Wordlist(p) => p.size(),
            AnyProducer::Range(p) => p.size(),
            AnyProducer::CustomQuery(p) => p.size(),
            AnyProducer::Date(p) => p.size(),
            AnyProducer::DefaultQuery(p) => p.size(),
        }
    }
}

/// The lines of a word list as sequences of bytes.
pub open spec fn lines_of(wordlist: Seq<Vec<u8>>) -> Seq<Seq<u8>> {
    Seq::new(wordlist.len(), |i: int| wordlist[i]@)
}

/// The candidates of a run with the strategy `method`, in order; for the
/// word list strategy, `wordlist` holds the lines of the list. The fault of
/// a template that cannot be read.
pub open spec fn candidates_of(method: Method, wordlist: Seq<Vec<u8>>) -> Result<
    Seq<Seq<u8>>,
    TemplateError,
> {
    match method {
        Method::Wordlist(_) => Ok(lines_of(wordlist)),
        Method::Range(args) => Ok(
            Seq::new(
                if args.lower_bound <= args.upper_bound {
                    (args.upper_bound - args.lower_bound + 1) as nat
                } else {
                    0
                },
                |k: int|
                    if args.add_preceding_zeros {
                        padded(
                            (args.lower_bound + k) as nat,
                            decimal(args.upper_bound as nat).len(),
                        )
                    } else {
                        decimal((args.lower_bound + k) as nat)
                    },
            ),
        ),
        Method::CustomQuery(args) => match parse_template(encode_utf8(args.custom_query@)) {
            Ok(parts) => Ok(
                Seq::new(combos(parts), |k: int| expand(parts, k as nat, args.add_preceding_zeros)),
            ),
            Err(e) => Err(e),
        },
        Method::Date(args) => Ok(
            Seq::new(
                if args.start <= args.end {
                    ((args.end - args.start + 1) * 372) as nat
                } else {
                    0
                },
                |k: int| date_at(args.start as nat, k as nat),
            ),
        ),
        Method::DefaultQuery(args) => Ok(
            Seq::new(
                crate::producer::odometer::words_between(
                    94,
                    args.min_length as nat,
                    (if args.max_length >= args.min_length {
                        args.max_length
                    } else {
                        args.min_length
                    }) as nat + 1,
                ),
                |k: int| nth_word(printable(), args.min_length as nat, (1 + k) as nat),
            ),
        ),
    }
}

/// Makes the producer for the strategy `method`. For the word list
/// strategy `wordlist` holds the lines of the list; the other strategies
/// make no use of it. A template that cannot be read is refused.
pub fn select(method: &Method, wordlist: Vec<Vec<u8>>) -> (r: Result<AnyProducer, TemplateError>)
    ensures
        match candidates_of(*method, wordlist@) {
            Ok(candidates) => r matches Ok(producer) && producer.wf() && producer.pending()
                == candidates,
            Err(e) => r matches Err(x) && x == e,
        },
        r matches Ok(producer) ==> match *method {
            Method::Wordlist(_) => producer is Wordlist,
            Method::Range(_) => producer is Range,
            Method::CustomQuery(_) => producer is CustomQuery,
            Method::Date(_) => producer is Date,
            Method::DefaultQuery(_) => producer is DefaultQuery,
        },
{
    match method {
        Method::Wordlist(_) => Ok(AnyProducer::Wordlist(LineProducer::new(wordlist))),
        Method::Range(args) => Ok(
            AnyProducer::Range(
                RangeProducer::new(args.add_preceding_zeros, args.lower_bound, args.upper_bound),
            ),
        ),
        Method::CustomQuery(args) => {
            match CustomQuery::new(args.custom_query.as_str(), args.add_preceding_zeros) {
                Ok(query) => Ok(AnyProducer::CustomQuery(query)),
                Err(e) => Err(e),
            }
        },
        Method::Date(args) => Ok(AnyProducer::Date(DateProducer::new(args.start, args.end))),
        Method::DefaultQuery(args) => Ok(
            AnyProducer::DefaultQuery(DefaultQuery::new(args.max_length, args.min_length)),
        ),
    }
}

} // verus!
