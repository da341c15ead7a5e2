//! Alphabets: the bytes that brute force makes its words of, in increasing
//! order and each one once.

use vstd::prelude::*;

verus! {

/// An alphabet is not empty and strictly increasing, so no byte occurs twice.
pub open spec fn is_alphabet(a: Seq<u8>) -> bool {
    &&& a.len() >= 1
    &&& increasing(a)
}

/// Every byte of `w` belongs to the alphabet `a`.
pub open spec fn over(a: Seq<u8>, w: Seq<u8>) -> bool {
    forall|i: int| 0 <= i < w.len() ==> a.contains(#[trigger] w[i])
}

/// In an alphabet the rank of a byte is its index.
pub proof fn lemma_rank(a: Seq<u8>, i: int)
    requires
        is_alphabet(a),
        0 <= i < a.len(),
    ensures
        a.contains(a[i]),
        a.index_of(a[i]) == i,
{
    let j = a.index_of(a[i]);
    assert(0 <= j < a.len() && a[j] == a[i]);
    if j < i {
        assert(a[j] < a[i]);
    }
    if i < j {
        assert(a[i] < a[j]);
    }
}

/// Every byte of `s` is less than the one after it.
pub open spec fn increasing(s: Seq<u8>) -> bool {
    forall|i: int, j: int| 0 <= i < j < s.len() ==> s[i] < s[j]
}

/// Looks for `byte` in `a` by halving. In an increasing `a` the byte is
/// found if it is there, and what is found is its rank.
pub fn rank_in(a: &Vec<u8>, byte: u8) -> (r: Option<usize>)
    ensures
        r matches Some(i) ==> i < a.len() && a[i as int] == byte,
        increasing(a@) ==> (r is Some <==> a@.contains(byte)),
{
    let mut lo: usize = 0;
    let mut hi: usize = a.len();
    while lo < hi
        invariant
            lo <= hi <= a.len(),
            increasing(a@) ==> forall|i: int| 0 <= i < lo ==> a[i] < byte,
            increasing(a@) ==> forall|i: int| hi <= i < a.len() ==> a[i] > byte,
        decreases hi - lo,
    {
        let mid: usize = lo + (hi - lo) / 2;
        let at: u8 = a[mid];
        if at == byte {
            return Some(mid);
        } else if at < byte {
            assert(increasing(a@) ==> forall|i: int| 0 <= i < mid + 1 ==> a[i] < byte) by {
                if increasing(a@) {
                    assert forall|i: int| 0 <= i < mid + 1 implies a[i] < byte by {
                        if i < mid {
                            assert(a[i] < a[mid as int]);
                        }
                    }
                }
            }
            lo = mid + 1;
        } else {
            assert(increasing(a@) ==> forall|i: int| mid <= i < a.len() ==> a[i] > byte) by {
                if increasing(a@) {
                    assert forall|i: int| mid <= i < a.len() implies a[i] > byte by {
                        if i > mid {
                            assert(a[mid as int] < a[i]);
                        }
                    }
                }
            }
            hi = mid;
        }
    }
    None
}

/// The bytes of `bytes` in increasing order, each one once.
pub fn sorted_set(bytes: &Vec<u8>) -> (out: Vec<u8>)
    ensures
        increasing(out@),
        forall|b: u8| out@.contains(b) <==> bytes@.contains(b),
{
    let mut present: Vec<bool> = Vec::new();
    while present.len() < 256
        invariant
            present.len() <= 256,
            forall|k: int| 0 <= k < present.len() ==> !present[k],
        decreases 256 - present.len(),
    {
        present.push(false);
    }
    let mut i: usize = 0;
    while i < bytes.len()
        invariant
            i <= bytes.len(),
            present.len() == 256,
            forall|b: u8| present[b as int] <==> bytes@.take(i as int).contains(b),
        decreases bytes.len() - i,
    {
        let byte: u8 = bytes[i];
        present.set(byte as usize, true);
        proof {
            let seen = bytes@.take(i as int);
            let more = bytes@.take(i + 1);
            assert(more =~= seen.push(byte));
            assert forall|b: u8| present[b as int] <==> more.contains(b) by {
                if b == byte {
                    assert(more[i as int] == byte);
                } else if seen.contains(b) {
                    let k = seen.index_of(b);
                    assert(more[k] == b);
                } else if more.contains(b) {
                    let k = more.index_of(b);
                    assert(seen[k] == b);
                }
            }
        }
        i += 1;
    }
    assert(bytes@.take(bytes.len() as int) =~= bytes@);
    let mut out: Vec<u8> = Vec::new();
    let mut b: usize = 0;
    while b < 256
        invariant
            b <= 256,
            present.len() == 256,
            forall|i: int, j: int| 0 <= i < j < out.len() ==> out[i] < out[j],
            forall|i: int| 0 <= i < out.len() ==> out[i] < b,
            forall|x: u8| out@.contains(x) <==> x < b && present[x as int],
        decreases 256 - b,
    {
        if present[b] {
            let ghost prev = out@;
            out.push(b as u8);
            proof {
                assert forall|x: u8| out@.contains(x) <==> x < b + 1 && present[x as int] by {
                    if x == b {
                        assert(out@[prev.len() as int] == x);
                    } else if prev.contains(x) {
                        let k = prev.index_of(x);
                        assert(out@[k] == x);
                    } else if out@.contains(x) {
                        let k = out@.index_of(x);
                        assert(prev[k] == x);
                    }
                }
            }
        }
        b += 1;
    }
    out
}

/// A strictly increasing sequence that holds exactly the bytes from `lo` to
/// `hi` lists them one by one.
pub proof fn lemma_dense_at(s: Seq<u8>, lo: u8, hi: u8, i: int)
    requires
        increasing(s),
        forall|b: u8| s.contains(b) <==> lo <= b <= hi,
        0 <= i < s.len(),
    ensures
        s[i] == lo + i,
    decreases i,
{
    assert(s.contains(s[i]));
    if i > 0 {
        lemma_dense_at(s, lo, hi, i - 1);
        assert(s[i - 1] < s[i]);
    }
    let want = (lo + i) as u8;
    assert(s.contains(want));
    let k = s.index_of(want);
    if k < i {
        lemma_dense_at(s, lo, hi, k);
    } else if k > i {
        assert(s[i] < s[k]);
    }
}

/// The bytes from `lo` to `hi`, in order.
pub open spec fn byte_range(lo: u8, hi: u8) -> Seq<u8> {
    Seq::new((hi - lo + 1) as nat, |i: int| (lo + i) as u8)
}

/// A strictly increasing sequence that holds exactly the bytes from `lo` to
/// `hi` is `byte_range(lo, hi)`.
pub proof fn lemma_dense(s: Seq<u8>, lo: u8, hi: u8)
    requires
        increasing(s),
        forall|b: u8| s.contains(b) <==> lo <= b <= hi,
        lo <= hi,
    ensures
        s == byte_range(lo, hi),
{
    assert(s.contains(hi));
    let k = s.index_of(hi);
    lemma_dense_at(s, lo, hi, k);
    let last = s.len() - 1;
    lemma_dense_at(s, lo, hi, last);
    assert(s.contains(s[last]));
    assert forall|i: int| 0 <= i < s.len() implies s[i] == byte_range(lo, hi)[i] by {
        lemma_dense_at(s, lo, hi, i);
    }
    assert(s =~= byte_range(lo, hi));
}

/// The printable ASCII bytes other than the space, `'!'` to `'~'`.
pub open spec fn printable() -> Seq<u8> {
    byte_range(33, 126)
}

/// Appends the bytes from `first` to `last`, in order, to `v`; nothing
/// where `last` is before `first`.
pub fn push_band(v: &mut Vec<u8>, first: u8, last: u8)
    ensures
        final(v)@ == old(v)@ + if first <= last {
            byte_range(first, last)
        } else {
            Seq::empty()
        },
        forall|b: u8| final(v)@.contains(b) <==> old(v)@.contains(b) || first <= b <= last,
{
    let ghost start = v@;
    if first > last {
        assert(v@ =~= start + Seq::<u8>::empty());
        return;
    }
    let mut byte: u16 = first as u16;
    while byte <= last as u16
        invariant
            first <= byte <= last + 1,
            v@ == start + Seq::new((byte - first) as nat, |i: int| (first + i) as u8),
            forall|b: u8| v@.contains(b) <==> start.contains(b) || first <= b < byte,
        decreases last + 1 - byte,
    {
        let ghost prev = v@;
        v.push(byte as u8);
        proof {
            assert(v@ == prev.push(byte as u8));
            assert(v@ =~= start + Seq::new(
                (byte + 1 - first) as nat,
                |i: int| (first + i) as u8,
            ));
            assert forall|b: u8| v@.contains(b) <==> start.contains(b) || first <= b < byte
                + 1 by {
                if b == byte {
                    assert(v@[prev.len() as int] == b);
                } else if prev.contains(b) {
                    let k = prev.index_of(b);
                    assert(v@[k] == b);
                } else if v@.contains(b) {
                    let k = v@.index_of(b);
                    assert(prev[k] == b);
                }
            }
        }
        byte += 1;
    }
}

} // verus!
