//! Candidates from a template: fixed text with numeric ranges in braces,
//! such as `id{0-99}-{1-3}`.
//!
//! A template stands for every way of picking one number from each range.
//! The candidates come in odometer order, the last range turning fastest.

use vstd::prelude::*;
use vstd::string::StringSliceAdditionalSpecFns;
use crate::decimal::decimal;
use crate::decimal::is_numeral;
use crate::decimal::numeral_value;
use crate::decimal::padded;
use crate::decimal::parse_decimal;
use crate::decimal::decimal_width;
use crate::decimal::to_decimal;
use crate::decimal::to_decimal_padded;
use crate::producer::Producer;

verus! {

/// Why a template was refused.
#[derive(Debug, Clone, Copy, PartialEq, Eq)]
pub enum TemplateError {
    /// A `{` without its `}`, a `}` without its `{`, or a `{` inside a range.
    UnbalancedBraces,
    /// What stands in the braces is not two numerals with a `-` between
    /// them, or one of the numbers is more than a machine word holds.
    NonNumericBound,
    /// The lower bound of a range is greater than its upper bound.
    InvertedBounds,
}

/// One part of a template, as a mathematical value.
pub enum Piece {
    /// Text that every candidate holds as it is.
    Text(Seq<u8>),
    /// The numbers from the first to the second, both included.
    Numbers(nat, nat),
}

/// One part of a parsed template.
#[derive(Debug, PartialEq, Eq)]
pub enum Segment {
    /// Text that every candidate holds as it is.
    Literal(Vec<u8>),
    /// The numbers from the first to the second, both included.
    Range(usize, usize),
}

impl View for Segment {
    type V = Piece;

    open spec fn view(&self) -> Piece {
        match self {
            Segment::Literal(text) => Piece::Text(text@),
            Segment::Range(lower, upper) => Piece::Numbers(*lower as nat, *upper as nat),
        }
    }
}

/// The pieces that the segments stand for.
pub open spec fn pieces(segments: Seq<Segment>) -> Seq<Piece> {
    Seq::new(segments.len(), |i: int| segments[i]@)
}

/// The first index from `from` on, and before `to`, at which `s` holds
/// `byte`; `to` where there is none.
pub open spec fn find_in(s: Seq<u8>, from: int, to: int, byte: u8) -> int
    decreases to - from,
{
    if from >= to {
        to
    } else if s[from] == byte {
        from
    } else {
        find_in(s, from + 1, to, byte)
    }
}

/// The first index from `from` on at which `s` holds a brace; the length of
/// `s` where there is none.
pub open spec fn next_brace(s: Seq<u8>, from: int) -> int
    decreases s.len() - from,
{
    if from >= s.len() {
        s.len() as int
    } else if s[from] == 123 || s[from] == 125 {
        from
    } else {
        next_brace(s, from + 1)
    }
}

/// The bounds of the range that is written in `s` from `from` up to `to`.
pub open spec fn parse_bounds(s: Seq<u8>, from: int, to: int) -> Result<
    (nat, nat),
    TemplateError,
> {
    let dash = find_in(s, from, to, 45);
    let lower = s.subrange(from, dash);
    let upper = s.subrange(dash + 1, to);
    if dash >= to {
        Err(TemplateError::NonNumericBound)
    } else if !is_numeral(lower) || numeral_value(lower) > usize::MAX {
        Err(TemplateError::NonNumericBound)
    } else if !is_numeral(upper) || numeral_value(upper) > usize::MAX {
        Err(TemplateError::NonNumericBound)
    } else if numeral_value(lower) > numeral_value(upper) {
        Err(TemplateError::InvertedBounds)
    } else {
        Ok((numeral_value(lower), numeral_value(upper)))
    }
}

/// `first` put before the pieces of `rest`, where there are any.
pub open spec fn followed_by(first: Piece, rest: Result<Seq<Piece>, TemplateError>) -> Result<
    Seq<Piece>,
    TemplateError,
> {
    match rest {
        Ok(pieces) => Ok(seq![first] + pieces),
        Err(e) => Err(e),
    }
}

/// The pieces of the template `s` from index `from` on, or the first fault
/// met when reading from there.
pub open spec fn parse_from(s: Seq<u8>, from: int) -> Result<Seq<Piece>, TemplateError>
    decreases s.len() - from,
{
    if from < 0 || from >= s.len() {
        Ok(Seq::empty())
    } else if s[from] == 125 {
        Err(TemplateError::UnbalancedBraces)
    } else if s[from] == 123 {
        let close = next_brace(s, from + 1);
        if close >= s.len() || s[close] != 125 {
            Err(TemplateError::UnbalancedBraces)
        } else {
            match parse_bounds(s, from + 1, close) {
                Err(e) => Err(e),
                Ok((lower, upper)) => {
                    proof {
                        lemma_next_brace_bounds(s, from + 1);
                    }
                    followed_by(Piece::Numbers(lower, upper), parse_from(s, close + 1))
                },
            }
        }
    } else {
        let end = next_brace(s, from);
        proof {
            lemma_next_brace_bounds(s, from);
        }
        followed_by(Piece::Text(s.subrange(from, end)), parse_from(s, end))
    }
}

/// The pieces of a template, or the first fault met when reading it.
pub open spec fn parse_template(s: Seq<u8>) -> Result<Seq<Piece>, TemplateError> {
    parse_from(s, 0)
}

/// The next brace is not before the place where the search starts, and not
/// after the end; where the search starts at a byte that is no brace, it is
/// further on.
pub proof fn lemma_next_brace_bounds(s: Seq<u8>, from: int)
    requires
        0 <= from <= s.len(),
    ensures
        from <= next_brace(s, from) <= s.len(),
        from < s.len() && s[from] != 123 && s[from] != 125 ==> from < next_brace(s, from),
    decreases s.len() - from,
{
    if from < s.len() && s[from] != 123 && s[from] != 125 {
        lemma_next_brace_bounds(s, from + 1);
    }
}

/// No range has its lower bound above its upper bound.
pub open spec fn in_order(parts: Seq<Piece>) -> bool {
    forall|i: int|
        0 <= i < parts.len() ==> (#[trigger] parts[i] matches Piece::Numbers(lower, upper)
            ==> lower <= upper)
}

/// The first index from `from` on at which `s` holds a brace.
fn scan_to_brace(s: &[u8], from: usize) -> (end: usize)
    requires
        from <= s.len(),
    ensures
        end == next_brace(s@, from as int),
        from <= end <= s.len(),
{
    let mut end: usize = from;
    while end < s.len() && s[end] != 123 && s[end] != 125
        invariant
            from <= end <= s.len(),
            next_brace(s@, from as int) == next_brace(s@, end as int),
        decreases s.len() - end,
    {
        end += 1;
    }
    end
}

/// The first index from `from` on, and before `to`, at which `s` holds
/// `byte`.
fn scan_to_byte(s: &[u8], from: usize, to: usize, byte: u8) -> (at: usize)
    requires
        from <= to <= s.len(),
    ensures
        at == find_in(s@, from as int, to as int, byte),
        from <= at <= to,
{
    let mut at: usize = from;
    while at < to && s[at] != byte
        invariant
            from <= at <= to <= s.len(),
            find_in(s@, from as int, to as int, byte) == find_in(s@, at as int, to as int, byte),
        decreases to - at,
    {
        at += 1;
    }
    at
}

/// Reads the bounds of the range written in `s` from `from` up to `to`.
pub fn read_bounds(s: &[u8], from: usize, to: usize) -> (r: Result<(usize, usize), TemplateError>)
    requires
        from <= to <= s.len(),
    ensures
        match parse_bounds(s@, from as int, to as int) {
            Ok((lower, upper)) => r == Ok::<(usize, usize), TemplateError>(
                (lower as usize, upper as usize),
            ) && lower <= upper <= usize::MAX,
            Err(e) => r == Err::<(usize, usize), TemplateError>(e),
        },
{
    let dash: usize = scan_to_byte(s, from, to, 45);
    if dash >= to {
        return Err(TemplateError::NonNumericBound);
    }
    let lower: usize = match parse_decimal(s, from, dash) {
        Some(v) => v,
        None => {
            return Err(TemplateError::NonNumericBound);
        },
    };
    let upper: usize = match parse_decimal(s, dash + 1, to) {
        Some(v) => v,
        None => {
            return Err(TemplateError::NonNumericBound);
        },
    };
    if lower > upper {
        return Err(TemplateError::InvertedBounds);
    }
    Ok((lower, upper))
}

/// The bytes of `s` from `from` up to `to`.
fn copy_range(s: &[u8], from: usize, to: usize) -> (out: Vec<u8>)
    requires
        from <= to <= s.len(),
    ensures
        out@ == s@.subrange(from as int, to as int),
{
    let mut out: Vec<u8> = Vec::new();
    let mut i: usize = from;
    while i < to
        invariant
            from <= i <= to <= s.len(),
            out@ == s@.subrange(from as int, i as int),
        decreases to - i,
    {
        out.push(s[i]);
        assert(out@ =~= s@.subrange(from as int, i + 1));
        i += 1;
    }
    out
}

/// Splits a template into its segments. A template that does not follow
/// the grammar is refused, with the first fault met from the left.
pub fn read_template(s: &[u8]) -> (r: Result<Vec<Segment>, TemplateError>)
    ensures
        match parse_template(s@) {
            Ok(parts) => r matches Ok(segments) && pieces(segments@) == parts && in_order(parts),
            Err(e) => r == Err::<Vec<Segment>, TemplateError>(e),
        },
{
    let mut segments: Vec<Segment> = Vec::new();
    let mut i: usize = 0;
    assert(pieces(segments@) =~= Seq::<Piece>::empty());
    while i < s.len()
        invariant
            i <= s.len(),
            in_order(pieces(segments@)),
            parse_template(s@) == match parse_from(s@, i as int) {
                Ok(rest) => Ok::<Seq<Piece>, TemplateError>(pieces(segments@) + rest),
                Err(e) => Err(e),
            },
        decreases s.len() - i,
    {
        let ghost done = pieces(segments@);
        let byte: u8 = s[i];
        if byte == 125 {
            return Err(TemplateError::UnbalancedBraces);
        }
        if byte == 123 {
            let close: usize = scan_to_brace(s, i + 1);
            if close >= s.len() || s[close] != 125 {
                return Err(TemplateError::UnbalancedBraces);
            }
            let (lower, upper) = match read_bounds(s, i + 1, close) {
                Ok(bounds) => bounds,
                Err(e) => {
                    return Err(e);
                },
            };
            segments.push(Segment::Range(lower, upper));
            proof {
                let piece = Piece::Numbers(lower as nat, upper as nat);
                assert(pieces(segments@) =~= done.push(piece));
                match parse_from(s@, close + 1) {
                    Ok(rest) => {
                        assert(done.push(piece) + rest =~= done + (seq![piece] + rest));
                    },
                    Err(_) => {},
                }
            }
            i = close + 1;
        } else {
            let end: usize = scan_to_brace(s, i);
            let text: Vec<u8> = copy_range(s, i, end);
            proof {
                lemma_next_brace_bounds(s@, i as int);
            }
            segments.push(Segment::Literal(text));
            proof {
                let piece = Piece::Text(s@.subrange(i as int, end as int));
                assert(pieces(segments@) =~= done.push(piece));
                match parse_from(s@, end as int) {
                    Ok(rest) => {
                        assert(done.push(piece) + rest =~= done + (seq![piece] + rest));
                    },
                    Err(_) => {},
                }
            }
            i = end;
        }
    }
    proof {
        assert(pieces(segments@) + Seq::<Piece>::empty() =~= pieces(segments@));
    }
    Ok(segments)
}

/// The number of values that a piece can take: one for text, the length of
/// the range for numbers.
pub open spec fn span(piece: Piece) -> nat {
    match piece {
        Piece::Text(_) => 1,
        Piece::Numbers(lower, upper) => if lower <= upper {
            (upper - lower + 1) as nat
        } else {
            0
        },
    }
}

/// The number of candidates of a template: the product of the lengths of
/// its ranges, 1 where it has none.
pub open spec fn combos(parts: Seq<Piece>) -> nat
    decreases parts.len(),
{
    if parts.len() == 0 {
        1
    } else {
        combos(parts.drop_last()) * span(parts.last())
    }
}

/// What a piece gives to a candidate in which the piece has its
/// `offset`-th value: text as it is, a number as a numeral, as wide as that
/// of the upper bound with `pad`.
pub open spec fn render(piece: Piece, offset: nat, pad: bool) -> Seq<u8> {
    match piece {
        Piece::Text(text) => text,
        Piece::Numbers(lower, upper) => if pad {
            padded(lower + offset, decimal(upper).len())
        } else {
            decimal(lower + offset)
        },
    }
}

/// The `k`-th candidate of a template, counted from 0. The last piece turns
/// fastest.
pub open spec fn expand(parts: Seq<Piece>, k: nat, pad: bool) -> Seq<u8>
    decreases parts.len(),
{
    if parts.len() == 0 {
        Seq::empty()
    } else {
        expand(parts.drop_last(), k / span(parts.last()), pad) + render(
            parts.last(),
            k % span(parts.last()),
            pad,
        )
    }
}

/// The candidate in which the `i`-th piece has its `offsets[i]`-th value.
pub open spec fn assemble(parts: Seq<Piece>, offsets: Seq<nat>, pad: bool) -> Seq<u8>
    decreases parts.len(),
{
    if parts.len() == 0 {
        Seq::empty()
    } else {
        assemble(parts.drop_last(), offsets.drop_last(), pad) + render(
            parts.last(),
            offsets.last(),
            pad,
        )
    }
}

/// The place, counted from 0, of the candidate in which the `i`-th piece has
/// its `offsets[i]`-th value.
pub open spec fn place(parts: Seq<Piece>, offsets: Seq<nat>) -> nat
    decreases parts.len(),
{
    if parts.len() == 0 {
        0
    } else {
        place(parts.drop_last(), offsets.drop_last()) * span(parts.last()) + offsets.last()
    }
}

/// Every offset is one that its piece can take.
pub open spec fn fits(parts: Seq<Piece>, offsets: Seq<nat>) -> bool {
    &&& offsets.len() == parts.len()
    &&& forall|i: int| 0 <= i < parts.len() ==> #[trigger] offsets[i] < span(parts[i])
}

/// The place of a candidate is below the number of candidates.
pub proof fn lemma_place_bound(parts: Seq<Piece>, offsets: Seq<nat>)
    requires
        fits(parts, offsets),
    ensures
        place(parts, offsets) < combos(parts),
    decreases parts.len(),
{
    if parts.len() > 0 {
        let head = parts.drop_last();
        let offs = offsets.drop_last();
        assert forall|i: int| 0 <= i < head.len() implies #[trigger] offs[i] < span(head[i]) by {
            assert(offs[i] == offsets[i]);
            assert(head[i] == parts[i]);
        }
        lemma_place_bound(head, offs);
        let c = combos(head) as int;
        let p = place(head, offs) as int;
        let w = span(parts.last()) as int;
        let o = offsets.last() as int;
        assert(o < w);
        assert(p * w + o < c * w) by (nonlinear_arith)
            requires
                0 <= p < c,
                0 <= o < w,
        ;
    }
}

/// The candidate at the place of some offsets is the one assembled from
/// them.
pub proof fn lemma_expand_place(parts: Seq<Piece>, offsets: Seq<nat>, pad: bool)
    requires
        fits(parts, offsets),
    ensures
        expand(parts, place(parts, offsets), pad) == assemble(parts, offsets, pad),
    decreases parts.len(),
{
    if parts.len() > 0 {
        let head = parts.drop_last();
        let offs = offsets.drop_last();
        assert forall|i: int| 0 <= i < head.len() implies #[trigger] offs[i] < span(head[i]) by {
            assert(offs[i] == offsets[i]);
            assert(head[i] == parts[i]);
        }
        lemma_expand_place(head, offs, pad);
        let p = place(head, offs) as int;
        let w = span(parts.last()) as int;
        let o = offsets.last() as int;
        assert(o < w);
        vstd::arithmetic::div_mod::lemma_fundamental_div_mod_converse(p * w + o, w, p, o);
    }
}

/// One turn of the odometer that stops at piece `i`: the pieces after `i`
/// fall back from their last value to their first, piece `i` moves on by
/// one, and the place goes up by one.
pub proof fn lemma_place_turn(parts: Seq<Piece>, before: Seq<nat>, after: Seq<nat>, i: int)
    requires
        fits(parts, before),
        after.len() == before.len(),
        0 <= i < parts.len(),
        forall|j: int| 0 <= j < i ==> after[j] == before[j],
        after[i] == before[i] + 1,
        forall|j: int| i < j < parts.len() ==> #[trigger] before[j] + 1 == span(parts[j]),
        forall|j: int| i < j < parts.len() ==> #[trigger] after[j] == 0,
    ensures
        place(parts, after) == place(parts, before) + 1,
    decreases parts.len(),
{
    let head = parts.drop_last();
    let b = before.drop_last();
    let a = after.drop_last();
    if i == parts.len() - 1 {
        assert(a =~= b);
    } else {
        assert forall|j: int| 0 <= j < head.len() implies #[trigger] b[j] < span(head[j]) by {
            assert(b[j] == before[j]);
            assert(head[j] == parts[j]);
        }
        assert forall|j: int| i < j < head.len() implies #[trigger] b[j] + 1 == span(
            head[j],
        ) by {
            assert(b[j] == before[j]);
            assert(head[j] == parts[j]);
        }
        assert forall|j: int| i < j < head.len() implies #[trigger] a[j] == 0 by {
            assert(a[j] == after[j]);
        }
        assert forall|j: int| 0 <= j < i implies a[j] == b[j] by {
            assert(b[j] == before[j]);
            assert(a[j] == after[j]);
        }
        assert(a[i] == after[i] && b[i] == before[i]);
        lemma_place_turn(head, b, a, i);
        let last = parts.len() - 1;
        assert(before[last] + 1 == span(parts[last]) && after[last] == 0);
        let p = place(head, b) as int;
        let w = span(parts.last()) as int;
        assert((p + 1) * w == p * w + w) by (nonlinear_arith);
    }
}

/// The candidate in which every piece has its last value is the last one.
pub proof fn lemma_place_last(parts: Seq<Piece>, offsets: Seq<nat>)
    requires
        offsets.len() == parts.len(),
        forall|j: int| 0 <= j < parts.len() ==> #[trigger] offsets[j] + 1 == span(parts[j]),
    ensures
        place(parts, offsets) + 1 == combos(parts),
    decreases parts.len(),
{
    if parts.len() > 0 {
        let head = parts.drop_last();
        let offs = offsets.drop_last();
        assert forall|j: int| 0 <= j < head.len() implies #[trigger] offs[j] + 1 == span(
            head[j],
        ) by {
            assert(offs[j] == offsets[j]);
            assert(head[j] == parts[j]);
        }
        lemma_place_last(head, offs);
        let p = place(head, offs) as int;
        let w = span(parts.last()) as int;
        assert((p + 1) * w == p * w + w) by (nonlinear_arith);
    }
}

/// The candidate in which every piece has its first value is the first
/// one.
pub proof fn lemma_place_first(parts: Seq<Piece>, offsets: Seq<nat>)
    requires
        offsets.len() == parts.len(),
        forall|j: int| 0 <= j < parts.len() ==> #[trigger] offsets[j] == 0,
    ensures
        place(parts, offsets) == 0,
    decreases parts.len(),
{
    if parts.len() > 0 {
        let head = parts.drop_last();
        let offs = offsets.drop_last();
        assert forall|j: int| 0 <= j < head.len() implies #[trigger] offs[j] == 0 by {
            assert(offs[j] == offsets[j]);
        }
        lemma_place_first(head, offs);
        assert(0 * span(parts.last()) == 0);
    }
}

/// Which value a segment has when its cursor stands at `value`: for a
/// range, how far `value` is above the lower bound.
pub open spec fn offset_of(segment: Segment, value: usize) -> nat {
    match segment {
        Segment::Literal(_) => 0,
        Segment::Range(lower, _) => if value >= lower {
            (value - lower) as nat
        } else {
            0
        },
    }
}

/// Hands out the candidates of a template.
pub struct CustomQuery {
    segments: Vec<Segment>,
    values: Vec<usize>,
    add_preceding_zeros: bool,
    done: bool,
}

impl CustomQuery {
    /// The pieces of the template.
    pub closed spec fn parts(&self) -> Seq<Piece> {
        pieces(self.segments@)
    }

    /// Whether numerals get leading zeros.
    pub closed spec fn padding(&self) -> bool {
        self.add_preceding_zeros
    }

    /// Which value each piece has in the candidate that comes next.
    pub closed spec fn offsets(&self) -> Seq<nat> {
        Seq::new(self.segments.len() as nat, |i: int| offset_of(self.segments[i], self.values[i]))
    }

    /// Whether the last candidate has been handed out.
    pub closed spec fn done(&self) -> bool {
        self.done
    }

    /// The cursor of every range stands inside the range.
    pub closed spec fn cursors_ok(&self) -> bool {
        &&& self.values.len() == self.segments.len()
        &&& forall|i: int|
            0 <= i < self.segments.len() ==> (#[trigger] self.segments[i] matches Segment::Range(
                lower,
                upper,
            ) ==> lower <= self.values[i] <= upper)
    }

    /// The number of candidates still to come.
    pub open spec fn remaining(&self) -> nat {
        if self.done() || combos(self.parts()) < place(self.parts(), self.offsets()) {
            0
        } else {
            (combos(self.parts()) - place(self.parts(), self.offsets())) as nat
        }
    }

    /// Reads a template and makes the producer of its candidates. With
    /// `add_preceding_zeros` the numerals of a range are as wide as that of
    /// its upper bound.
    pub fn new(query: &str, add_preceding_zeros: bool) -> (r: Result<CustomQuery, TemplateError>)
        ensures
            match parse_template(query.spec_bytes()) {
                Ok(parts) => {
                    &&& r matches Ok(q)
                    &&& q.wf()
                    &&& !q.done()
                    &&& q.parts() == parts
                    &&& q.padding() == add_preceding_zeros
                    &&& q.pending() == Seq::new(
                        combos(parts),
                        |k: int| expand(parts, k as nat, add_preceding_zeros),
                    )
                },
                Err(e) => r matches Err(x) && x == e,
            },
    {
        let segments: Vec<Segment> = match read_template(query.as_bytes()) {
            Ok(segments) => segments,
            Err(e) => {
                return Err(e);
            },
        };
        let mut values: Vec<usize> = Vec::new();
        let mut i: usize = 0;
        while i < segments.len()
            invariant
                i <= segments.len(),
                values.len() == i,
                in_order(pieces(segments@)),
                forall|j: int|
                    0 <= j < i ==> (#[trigger] segments[j] matches Segment::Range(lower, upper)
                        ==> values[j] == lower && lower <= upper),
            decreases segments.len() - i,
        {
            let start: usize = match &segments[i] {
                Segment::Literal(_) => 0,
                Segment::Range(lower, _) => *lower,
            };
            proof {
                let piece = pieces(segments@)[i as int];
                assert(piece == segments[i as int]@);
            }
            values.push(start);
            i += 1;
        }
        let q = CustomQuery { segments, values, add_preceding_zeros, done: false };
        proof {
            let parts = q.parts();
            assert forall|j: int| 0 <= j < parts.len() implies #[trigger] q.offsets()[j]
                == 0 by {}
            lemma_place_first(parts, q.offsets());
            assert forall|j: int| 0 <= j < parts.len() implies #[trigger] q.offsets()[j] < span(
                parts[j],
            ) by {
                assert(parts[j] == q.segments[j]@);
            }
            assert(q.pending() =~= Seq::new(
                combos(parts),
                |k: int| expand(parts, k as nat, add_preceding_zeros),
            ));
        }
        Ok(q)
    }

    /// The candidate that the cursors show.
    fn current(&self) -> (out: Vec<u8>)
        requires
            self.wf(),
        ensures
            out@ == assemble(self.parts(), self.offsets(), self.padding()),
    {
        let ghost parts = self.parts();
        let ghost offsets = self.offsets();
        let mut out: Vec<u8> = Vec::new();
        let mut i: usize = 0;
        assert(parts.take(0) =~= Seq::<Piece>::empty());
        while i < self.segments.len()
            invariant
                i <= self.segments.len(),
                self.wf(),
                parts == self.parts(),
                offsets == self.offsets(),
                out@ == assemble(parts.take(i as int), offsets.take(i as int), self.padding()),
            decreases self.segments.len() - i,
        {
            proof {
                assert(parts.take(i + 1).drop_last() =~= parts.take(i as int));
                assert(offsets.take(i + 1).drop_last() =~= offsets.take(i as int));
                assert(parts.take(i + 1).last() == self.segments[i as int]@);
                assert(offsets.take(i + 1).last() == offset_of(
                    self.segments[i as int],
                    self.values[i as int],
                ));
            }
            match &self.segments[i] {
                Segment::Literal(text) => {
                    let mut copy: Vec<u8> = text.clone();
                    out.append(&mut copy);
                },
                Segment::Range(_, upper) => {
                    let mut digits: Vec<u8> = if self.add_preceding_zeros {
                        to_decimal_padded(self.values[i], decimal_width(*upper))
                    } else {
                        to_decimal(self.values[i])
                    };
                    out.append(&mut digits);
                },
            }
            i += 1;
        }
        proof {
            assert(parts.take(self.segments.len() as int) =~= parts);
            assert(offsets.take(self.segments.len() as int) =~= offsets);
        }
        out
    }
}

impl Producer for CustomQuery {
    open spec fn wf(&self) -> bool {
        &&& self.cursors_ok()
        &&& fits(self.parts(), self.offsets())
    }

    open spec fn pending(&self) -> Seq<Seq<u8>> {
        Seq::new(
            self.remaining(),
            |k: int|
                expand(
                    self.parts(),
                    (place(self.parts(), self.offsets()) + k) as nat,
                    self.padding(),
                ),
        )
    }

    /// Hands out the candidate that the cursors show, and moves the cursors
    /// on: the last range that is not at its upper bound goes up by one, and
    /// the ranges after it start again.
    fn next(&mut self) -> (r: Result<Option<Vec<u8>>, String>)
        ensures
            r is Ok,
            final(self).parts() == old(self).parts(),
            final(self).padding() == old(self).padding(),
            r matches Ok(None) ==> final(self).done() && final(self).offsets() == old(
                self,
            ).offsets(),
            r matches Ok(Some(_)) ==> final(self).done() == (old(self).remaining() == 1),
    {
        if self.done {
            return Ok(None);
        }
        let ghost parts = self.parts();
        let ghost before = self.offsets();
        let ghost pending = self.pending();
        let candidate: Vec<u8> = self.current();
        proof {
            lemma_expand_place(parts, before, self.padding());
            lemma_place_bound(parts, before);
        }
        let mut carried: bool = false;
        let mut i: usize = self.segments.len();
        while i > 0
            invariant_except_break
                !carried,
                forall|j: int| i <= j < parts.len() ==> #[trigger] before[j] + 1 == span(parts[j]),
                forall|j: int| i <= j < parts.len() ==> #[trigger] self.offsets()[j] == 0,
                forall|j: int| 0 <= j < i ==> #[trigger] self.offsets()[j] == before[j],
            invariant
                i <= self.segments.len(),
                self.cursors_ok(),
                self.parts() == parts,
                self.offsets().len() == parts.len(),
                fits(parts, before),
                !self.done,
                self.add_preceding_zeros == old(self).add_preceding_zeros,
            ensures
                carried ==> place(parts, self.offsets()) == place(parts, before) + 1 && fits(
                    parts,
                    self.offsets(),
                ),
                !carried ==> forall|j: int|
                    0 <= j < parts.len() ==> #[trigger] before[j] + 1 == span(parts[j]),
                !carried ==> forall|j: int|
                    0 <= j < parts.len() ==> #[trigger] self.offsets()[j] == 0,
            decreases i,
        {
            i -= 1;
            let ghost here = self.offsets();
            let ghost piece = parts[i as int];
            assert(piece == self.segments[i as int]@);
            assert(before[i as int] < span(piece));
            assert(here[i as int] == before[i as int]);
            let (lower, upper): (usize, usize) = match &self.segments[i] {
                Segment::Literal(_) => (0, 0),
                Segment::Range(lower, upper) => (*lower, *upper),
            };
            let value: usize = self.values[i];
            if value < upper {
                self.values.set(i, value + 1);
                carried = true;
                proof {
                    let after = self.offsets();
                    assert forall|j: int| 0 <= j < i implies after[j] == before[j] by {
                        assert(after[j] == here[j]);
                    }
                    assert forall|j: int| i < j < parts.len() implies #[trigger] after[j]
                        == 0 by {
                        assert(after[j] == here[j]);
                    }
                    assert(after[i as int] == before[i as int] + 1);
                    lemma_place_turn(parts, before, after, i as int);
                    assert forall|j: int| 0 <= j < parts.len() implies #[trigger] after[j]
                        < span(parts[j]) by {
                        assert(before[j] < span(parts[j]));
                    }
                }
                break;
            } else {
                self.values.set(i, lower);
                proof {
                    let after = self.offsets();
                    assert forall|j: int| 0 <= j < i implies #[trigger] after[j]
                        == before[j] by {
                        assert(after[j] == here[j]);
                    }
                    assert forall|j: int| i <= j < parts.len() implies #[trigger] after[j]
                        == 0 by {
                        if j > i {
                            assert(after[j] == here[j]);
                        }
                    }
                }
            }
        }
        proof {
            if !carried {
                lemma_place_last(parts, before);
                assert forall|j: int| 0 <= j < parts.len() implies #[trigger] self.offsets()[j]
                    < span(parts[j]) by {
                    assert(before[j] < span(parts[j]));
                    assert(self.offsets()[j] == 0);
                }
            }
        }
        if !carried {
            self.done = true;
        }
        proof {
            lemma_place_bound(parts, self.offsets());
            assert(self.pending() =~= pending.drop_first());
        }
        Ok(Some(candidate))
    }

    /// The number of candidates of the template, and no more than a machine
    /// word holds.
    fn size(&self) -> (n: usize)
        ensures
            n == if combos(self.parts()) <= usize::MAX {
                combos(self.parts())
            } else {
                usize::MAX as nat
            },
    {
        let ghost parts = self.parts();
        let mut total: usize = 1;
        let mut i: usize = 0;
        assert(parts.take(0) =~= Seq::<Piece>::empty());
        while i < self.segments.len()
            invariant
                i <= self.segments.len(),
                self.wf(),
                parts == self.parts(),
                total == combos(parts.take(i as int)),
                total >= 1,
            decreases self.segments.len() - i,
        {
            proof {
                assert(parts.take(i + 1).drop_last() =~= parts.take(i as int));
                assert(parts.take(i + 1).last() == self.segments[i as int]@);
                lemma_combos_grow(parts, i + 1);
            }
            let width: Option<usize> = match &self.segments[i] {
                Segment::Literal(_) => Some(1),
                Segment::Range(lower, upper) => (*upper - *lower).checked_add(1),
            };
            let grown: Option<usize> = match width {
                Some(w) => total.checked_mul(w),
                None => None,
            };
            match grown {
                Some(t) => {
                    total = t;
                },
                None => {
                    proof {
                        let c = combos(parts.take(i as int)) as int;
                        let w = span(parts[i as int]) as int;
                        assert(c * w > usize::MAX) by (nonlinear_arith)
                            requires
                                c >= 1,
                                w >= 1,
                                c * w > usize::MAX || w > usize::MAX,
                        ;
                    }
                    return usize::MAX;
                },
            }
            i += 1;
        }
        proof {
            assert(parts.take(self.segments.len() as int) =~= parts);
        }
        total
    }
}

/// Where every piece can take a value, a template has no fewer candidates
/// than any of its beginnings.
pub proof fn lemma_combos_grow(parts: Seq<Piece>, k: int)
    requires
        0 <= k <= parts.len(),
        forall|i: int| 0 <= i < parts.len() ==> span(#[trigger] parts[i]) >= 1,
    ensures
        1 <= combos(parts.take(k)) <= combos(parts),
    decreases parts.len() - k,
{
    if k < parts.len() {
        let longer = parts.take(k + 1);
        assert(longer.drop_last() =~= parts.take(k));
        assert(longer.last() == parts[k]);
        lemma_combos_grow(parts, k + 1);
        let c = combos(parts.take(k)) as int;
        let w = span(parts[k]) as int;
        assert(c <= c * w) by (nonlinear_arith)
            requires
                c >= 0,
                w >= 1,
        ;
        if k == 0 {
            assert(parts.take(0) =~= Seq::<Piece>::empty());
        } else {
            lemma_combos_positive(parts.take(k));
        }
    } else {
        assert(parts.take(k) =~= parts);
        lemma_combos_positive(parts);
    }
}

/// A template in which every piece can take a value has a candidate.
pub proof fn lemma_combos_positive(parts: Seq<Piece>)
    requires
        forall|i: int| 0 <= i < parts.len() ==> span(#[trigger] parts[i]) >= 1,
    ensures
        combos(parts) >= 1,
    decreases parts.len(),
{
    if parts.len() > 0 {
        let head = parts.drop_last();
        assert forall|i: int| 0 <= i < head.len() implies span(#[trigger] head[i]) >= 1 by {
            assert(head[i] == parts[i]);
        }
        lemma_combos_positive(head);
        let c = combos(head) as int;
        let w = span(parts.last()) as int;
        assert(c * w >= 1) by (nonlinear_arith)
            requires
                c >= 1,
                w >= 1,
        ;
    }
}

} // verus!
