//! A reader over a byte stream delivered as arbitrary fragments. Its two
//! primitives — read a CRLF-terminated line and read exactly `n` bytes —
//! are specified purely over the concatenation of what remains, so how the
//! bytes were fragmented can never influence what is parsed from them.

use vstd::prelude::*;

use crate::ascii::{
    lemma_find_crlf_boundary, lemma_find_crlf_none, spec_find_crlf, CR, LF,
};
use crate::errors::StreamError;

verus! {

/// The concatenation of the fragments of `cs` from index `from` on.
pub open spec fn spec_chunks_concat(cs: Seq<Vec<u8>>, from: int) -> Seq<u8>
    decreases cs.len() - from,
{
    if 0 <= from < cs.len() {
        cs[from]@ + spec_chunks_concat(cs, from + 1)
    } else {
        Seq::<u8>::empty()
    }
}

/// A position-tracking reader over a fragmented byte stream. Its view is
/// the sequence of bytes not yet consumed.
pub struct StreamReader {
    chunks: Vec<Vec<u8>>,
    frag: usize,
    pos: usize,
}

impl View for StreamReader {
    type V = Seq<u8>;

    closed spec fn view(&self) -> Seq<u8> {
        if self.frag < self.chunks@.len() {
            self.chunks@[self.frag as int]@.skip(self.pos as int) + spec_chunks_concat(
                self.chunks@,
                self.frag + 1,
            )
        } else {
            Seq::<u8>::empty()
        }
    }
}

impl StreamReader {
    /// The position sits inside the current fragment.
    pub closed spec fn wf(&self) -> bool {
        &&& self.frag <= self.chunks@.len()
        &&& (self.frag < self.chunks@.len() ==> self.pos <= self.chunks@[self.frag as int]@.len())
        &&& (self.frag == self.chunks@.len() ==> self.pos == 0)
    }

    /// A reader over the given fragments; what it will yield is exactly
    /// their concatenation, whatever the fragment boundaries are.
    pub fn new(chunks: Vec<Vec<u8>>) -> (r: StreamReader)
        ensures
            r.wf(),
            r@ == spec_chunks_concat(chunks@, 0),
    {
        let r = StreamReader { chunks, frag: 0, pos: 0 };
        proof {
            if r.chunks@.len() > 0 {
                assert(r.chunks@[0]@.skip(0) =~= r.chunks@[0]@);
            }
        }
        r
    }

    /// Takes the next byte of the stream, or reports that it has ended.
    fn read_byte(&mut self) -> (r: Option<u8>)
        requires
            old(self).wf(),
        ensures
            final(self).wf(),
            match r {
                Some(b) => old(self)@.len() > 0 && b == old(self)@[0] && final(self)@ == old(
                    self,
                )@.skip(1),
                None => old(self)@.len() == 0 && final(self)@ == old(self)@,
            },
    {
        loop
            invariant
                self.wf(),
                self@ == old(self)@,
            decreases self.chunks@.len() - self.frag,
        {
            if self.frag >= self.chunks.len() {
                return None;
            }
            let fraglen = self.chunks[self.frag].len();
            if self.pos < fraglen {
                let b = self.chunks[self.frag][self.pos];
                proof {
                    let cur = self.chunks@[self.frag as int]@;
                    assert(cur.skip(self.pos as int)[0] == cur[self.pos as int]);
                    assert(cur.skip(self.pos + 1 as int) =~= cur.skip(self.pos as int).skip(1));
                    assert((cur.skip(self.pos as int) + spec_chunks_concat(
                        self.chunks@,
                        self.frag + 1,
                    )).skip(1) =~= cur.skip(self.pos + 1 as int) + spec_chunks_concat(
                        self.chunks@,
                        self.frag + 1,
                    ));
                }
                self.pos = self.pos + 1;
                return Some(b);
            }
            proof {
                let cur = self.chunks@[self.frag as int]@;
                assert(cur.skip(self.pos as int) =~= Seq::<u8>::empty());
                if self.frag + 1 < self.chunks@.len() {
                    assert(spec_chunks_concat(self.chunks@, self.frag + 1)
                        == self.chunks@[self.frag + 1]@ + spec_chunks_concat(
                        self.chunks@,
                        self.frag + 2,
                    ));
                    assert(self.chunks@[self.frag + 1]@.skip(0) =~= self.chunks@[self.frag + 1]@);
                }
                assert(cur.skip(self.pos as int) + spec_chunks_concat(self.chunks@, self.frag + 1)
                    =~= spec_chunks_concat(self.chunks@, self.frag + 1));
            }
            self.frag = self.frag + 1;
            self.pos = 0;
        }
    }

    /// Reads one line: the bytes up to the first CRLF of the stream, the
    /// terminator excluded and consumed. A bare CR stays in the line; a
    /// stream without CRLF is an unexpected end.
    pub fn read_line(&mut self) -> (r: Result<Vec<u8>, StreamError>)
        requires
            old(self).wf(),
        ensures
            final(self).wf(),
            match r {
                Ok(line) => spec_find_crlf(old(self)@) == Some(line@.len() as int) && line@ == old(
                    self,
                )@.take(line@.len() as int) && final(self)@ == old(self)@.skip(
                    line@.len() + 2 as int,
                ),
                Err(e) => e == StreamError::EOF && spec_find_crlf(old(self)@) == None::<int>
                    && final(self)@ == Seq::<u8>::empty(),
            },
    {
        let mut out: Vec<u8> = Vec::new();
        let mut last_cr = false;
        loop
            invariant
                self.wf(),
                old(self)@ == out@ + self@,
                last_cr == (out@.len() > 0 && out@.last() == CR),
                forall|j: int|
                    0 <= j && j + 1 < out@.len() ==> !((#[trigger] out@[j]) == CR && out@[j + 1]
                        == LF),
            decreases self@.len(),
        {
            match self.read_byte() {
                None => {
                    proof {
                        assert(out@ + self@ =~= out@);
                        lemma_find_crlf_none(out@);
                    }
                    return Err(StreamError::EOF);
                },
                Some(b) => {
                    let ghost rest = self@;
                    if last_cr && b == LF {
                        let ghost pre = out@;
                        out.pop();
                        proof {
                            let line = out@;
                            assert(pre =~= line.push(CR));
                            assert(old(self)@ =~= line + seq![CR, LF] + rest);
                            assert forall|j: int| 0 <= j && j + 1 < line.len() implies !((
                            #[trigger] line[j]) == CR && line[j + 1] == LF) by {
                                assert(pre[j] == line[j] && pre[j + 1] == line[j + 1]);
                            }
                            lemma_find_crlf_none(line);
                            lemma_find_crlf_boundary(line, rest);
                            assert(old(self)@.take(line.len() as int) =~= line);
                            assert(old(self)@.skip(line.len() + 2 as int) =~= rest);
                        }
                        return Ok(out);
                    }
                    let ghost pre = out@;
                    out.push(b);
                    proof {
                        assert(out@ + self@ =~= (pre + seq![b]) + rest);
                        assert(old(self)@ =~= pre + (seq![b] + rest));
                        assert(pre + seq![b] + rest =~= pre + (seq![b] + rest));
                        assert forall|j: int| 0 <= j && j + 1 < out@.len() implies !((
                        #[trigger] out@[j]) == CR && out@[j + 1] == LF) by {
                            if j + 1 < pre.len() {
                                assert(out@[j] == pre[j] && out@[j + 1] == pre[j + 1]);
                            } else {
                                // the new pair ends in b, and this branch
                                // did not see CR then LF
                                assert(out@[j + 1] == b);
                                if pre.len() > 0 && j == pre.len() - 1 {
                                    assert(out@[j] == pre.last());
                                }
                            }
                        }
                    }
                    last_cr = b == CR;
                },
            }
        }
    }

    /// Reads exactly `n` bytes, or reports an unexpected end if the stream
    /// holds fewer.
    pub fn read_n(&mut self, n: usize) -> (r: Result<Vec<u8>, StreamError>)
        requires
            old(self).wf(),
        ensures
            final(self).wf(),
            match r {
                Ok(buf) => old(self)@.len() >= n && buf@.len() == n && buf@ == old(self)@.take(
                    n as int,
                ) && final(self)@ == old(self)@.skip(n as int),
                Err(e) => e == StreamError::EOF && old(self)@.len() < n && final(self)@
                    == Seq::<u8>::empty(),
            },
    {
        let mut out: Vec<u8> = Vec::new();
        let mut i: usize = 0;
        while i < n
            invariant
                self.wf(),
                i <= n,
                out@.len() == i,
                old(self)@ == out@ + self@,
                out@ == old(self)@.take(i as int),
            decreases n - i,
        {
            match self.read_byte() {
                None => {
                    proof {
                        assert(out@ + self@ =~= out@);
                    }
                    return Err(StreamError::EOF);
                },
                Some(b) => {
                    let ghost rest = self@;
                    let ghost pre = out@;
                    out.push(b);
                    proof {
                        assert(out@ + self@ =~= (pre + seq![b]) + rest);
                        assert(pre + seq![b] + rest =~= pre + (seq![b] + rest));
                        assert(out@ =~= old(self)@.take(i + 1 as int));
                    }
                },
            }
            i += 1;
        }
        proof {
            assert(final(self)@ =~= old(self)@.skip(n as int));
        }
        Ok(out)
    }

    /// Drains and returns everything the stream still holds; afterwards
    /// the reader is empty. This is how a caller recovers bytes that
    /// belong to the next message.
    pub fn take_rest(&mut self) -> (r: Vec<u8>)
        requires
            old(self).wf(),
        ensures
            final(self).wf(),
            r@ == old(self)@,
            final(self)@ == Seq::<u8>::empty(),
    {
        let mut out: Vec<u8> = Vec::new();
        loop
            invariant
                self.wf(),
                old(self)@ == out@ + self@,
            decreases self@.len(),
        {
            match self.read_byte() {
                None => {
                    proof {
                        assert(out@ + self@ =~= out@);
                    }
                    return out;
                },
                Some(b) => {
                    let ghost rest = self@;
                    let ghost pre = out@;
                    out.push(b);
                    proof {
                        assert(out@ + self@ =~= (pre + seq![b]) + rest);
                        assert(pre + seq![b] + rest =~= pre + (seq![b] + rest));
                    }
                },
            }
        }
    }
}

} // verus!
