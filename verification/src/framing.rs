//! Byte-stream framing: commands may arrive split or batched across reads,
//! so incoming chunks are buffered and complete lines (terminated by a line
//! feed, with one trailing carriage return stripped) are handed out one at
//! a time. No partial line is ever visible to a session.

use vstd::prelude::*;

use crate::text::{find_byte, lemma_find_byte_at, lemma_find_byte_none};

verus! {

/// A line without its trailing carriage return, when it has one.
pub open spec fn strip_cr(s: Seq<u8>) -> Seq<u8> {
    if s.len() > 0 && s[s.len() - 1] == 13 {
        s.drop_last()
    } else {
        s
    }
}

/// The per-connection reassembly buffer.
pub struct LineAssembler {
    buf: Vec<u8>,
}

impl View for LineAssembler {
    type V = Seq<u8>;

    closed spec fn view(&self) -> Seq<u8> {
        self.buf@
    }
}

impl LineAssembler {
    /// An empty buffer.
    pub fn new() -> (s: Self)
        ensures
            s@ == Seq::<u8>::empty(),
    {
        let s = LineAssembler { buf: Vec::new() };
        proof {
            assert(s@ =~= Seq::<u8>::empty());
        }
        s
    }

    /// Buffers one chunk as read from the peer.
    pub fn push_chunk(&mut self, chunk: &[u8])
        ensures
            final(self)@ == old(self)@ + chunk@,
    {
        crate::text::append_bytes(&mut self.buf, chunk);
    }

    /// The next complete line, if one is buffered: the bytes up to the first
    /// line feed, with one trailing carriage return stripped; those bytes
    /// leave the buffer. Without a buffered line feed, nothing is handed out
    /// and the buffer keeps its bytes.
    pub fn next_line(&mut self) -> (r: Option<Vec<u8>>)
        ensures
            ({
                let found = find_byte(old(self)@, 10);
                match r {
                    Some(l) => found is Some && l@ == strip_cr(
                        old(self)@.take(found.unwrap()),
                    ) && final(self)@ == old(self)@.skip(found.unwrap() + 1),
                    None => found is None && final(self)@ == old(self)@,
                }
            }),
    {
        let n = self.buf.len();
        let mut i: usize = 0;
        #[verifier::loop_isolation(false)]
        while i < n
            invariant
                0 <= i <= n,
                self.buf@ == old(self)@,
                n == self.buf@.len(),
                forall|j: int| 0 <= j < i ==> self.buf@[j] != 10,
            decreases n - i,
        {
            if self.buf[i] == 10 {
                proof {
                    lemma_find_byte_at(self.buf@, 10, i as int);
                }
                let end = if i > 0 && self.buf[i - 1] == 13 {
                    i - 1
                } else {
                    i
                };
                let line = vstd::slice::slice_to_vec(
                    vstd::slice::slice_subrange(self.buf.as_slice(), 0, end),
                );
                proof {
                    let whole = self.buf@.take(i as int);
                    if i > 0 && self.buf@[i - 1] == 13 {
                        assert(whole[whole.len() - 1] == self.buf@[i - 1]);
                        assert(whole.drop_last() =~= self.buf@.subrange(0, i - 1));
                    }
                    assert(line@ == strip_cr(whole));
                }
                let rest = vstd::slice::slice_to_vec(
                    vstd::slice::slice_subrange(self.buf.as_slice(), i + 1, n),
                );
                proof {
                    assert(rest@ =~= self.buf@.skip(i + 1 as int));
                }
                self.buf = rest;
                return Some(line);
            }
            i += 1;
        }
        proof {
            lemma_find_byte_none(self.buf@, 10);
        }
        None
    }
}

} // verus!
