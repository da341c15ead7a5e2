//! The lines of a word list as candidates, in the order of the list.

use vstd::prelude::*;
use crate::producer::Producer;

verus! {

/// Hands out the lines of a word list, one per call.
pub struct LineProducer {
    lines: Vec<Vec<u8>>,
    at: usize,
}

impl LineProducer {
    /// The lines of the list.
    pub closed spec fn lines(&self) -> Seq<Seq<u8>> {
        Seq::new(self.lines.len() as nat, |i: int| self.lines[i]@)
    }

    /// The number of lines handed out so far.
    pub closed spec fn consumed(&self) -> nat {
        self.at as nat
    }

    /// A producer of `lines`, each line being the bytes of one entry
    /// without its line end.
    pub fn new(lines: Vec<Vec<u8>>) -> (p: LineProducer)
        ensures
            p.wf(),
            p.consumed() == 0,
            p.lines() == Seq::new(lines.len() as nat, |i: int| lines[i]@),
            p.pending() == Seq::new(lines.len() as nat, |i: int| lines[i]@),
    {
        let p = LineProducer { lines, at: 0 };
        assert(p.pending() =~= p.lines());
        p
    }
}

impl Producer for LineProducer {
    open spec fn wf(&self) -> bool {
        self.consumed() <= self.lines().len()
    }

    open spec fn pending(&self) -> Seq<Seq<u8>> {
        self.lines().skip(self.consumed() as int)
    }

    /// Hands out the next line of the list.
    fn next(&mut self) -> (r: Result<Option<Vec<u8>>, String>)
        ensures
            r is Ok,
            final(self).lines() == old(self).lines(),
            final(self).consumed() == if r matches Ok(Some(_)) {
                old(self).consumed() + 1
            } else {
                old(self).consumed()
            },
    {
        if self.at >= self.lines.len() {
            return Ok(None);
        }
        let ghost before = self.pending();
        let line: Vec<u8> = self.lines[self.at].clone();
        self.at += 1;
        assert(self.pending() =~= before.drop_first());
        Ok(Some(line))
    }

    /// The number of lines still to come.
    fn size(&self) -> (n: usize)
        ensures
            n == self.pending().len(),
    {
        self.lines.len() - self.at
    }
}

} // verus!
