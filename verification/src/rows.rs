//! A lazy, allocation-free iterator over the records of a byte buffer.
use crate::model::{
    first_line, lemma_find_byte, lemma_find_byte_is_first, lemma_lines_unfold, line_rest, lines_of,
    NL,
};
use crate::outside::find_first;
use vstd::prelude::*;
use vstd::slice::slice_subrange;

verus! {

/// A cursor over a borrowed buffer that hands out one record slice per
/// call, with its trailing line feed stripped.
pub struct Rows<'a> {
    input: &'a [u8],
    start: usize,
}

impl<'a> Rows<'a> {
    /// The whole buffer being walked.
    pub closed spec fn buf(self) -> Seq<u8> {
        self.input@
    }

    /// How far the walk has come.
    pub closed spec fn cursor(self) -> int {
        self.start as int
    }

    pub open spec fn wf(self) -> bool {
        0 <= self.cursor() <= self.buf().len()
    }

    /// The part of the buffer not yet handed out.
    pub open spec fn remaining(self) -> Seq<u8> {
        self.buf().subrange(self.cursor(), self.buf().len() as int)
    }

    /// A fresh walk over `input`.
    pub fn new(input: &'a [u8]) -> (r: Rows<'a>)
        ensures
            r.wf(),
            r.buf() == input@,
            r.remaining() == input@,
    {
        let r = Rows { input, start: 0 };
        proof {
            assert(r.remaining() =~= input@);
        }
        r
    }

    /// The next record, or `None` once the buffer is exhausted.
    pub fn next(&mut self) -> (r: Option<&'a [u8]>)
        requires
            old(self).wf(),
        ensures
            final(self).wf(),
            final(self).buf() == old(self).buf(),
            match r {
                None => old(self).remaining().len() == 0 && *final(self) == *old(self),
                Some(l) => {
                    &&& old(self).remaining().len() > 0
                    &&& l@ == first_line(old(self).remaining())
                    &&& final(self).remaining() == line_rest(old(self).remaining())
                    &&& final(self).cursor() >= old(self).cursor() + l@.len()
                    &&& final(self).cursor() > old(self).cursor()
                    &&& lines_of(old(self).remaining()) == seq![l@] + lines_of(
                        final(self).remaining(),
                    )
                },
            },
    {
        if self.start >= self.input.len() {
            return None;
        }
        let ghost rem = self.remaining();
        let tail = slice_subrange(self.input, self.start, self.input.len());
        match find_first(NL, tail) {
            Some(off) => {
                let line = slice_subrange(self.input, self.start, self.start + off);
                proof {
                    lemma_find_byte_is_first(tail@, NL, off as int);
                    lemma_lines_unfold(rem);
                    assert(line@ =~= first_line(rem));
                }
                self.start = self.start + off + 1;
                proof {
                    assert(self.remaining() =~= line_rest(rem));
                }
                Some(line)
            },
            None => {
                let line = slice_subrange(self.input, self.start, self.input.len());
                proof {
                    lemma_find_byte(tail@, NL);
                    assert(crate::model::find_byte(tail@, NL) is None);
                    lemma_lines_unfold(rem);
                    assert(line@ =~= first_line(rem));
                }
                self.start = self.input.len();
                proof {
                    assert(self.remaining() =~= line_rest(rem));
                }
                Some(line)
            },
        }
    }
}

} // verus!
