//! A buffered byte stream with a read cursor: the in-memory face of
//! one connection's read half. The connection's bytes are fed in as
//! they arrive; parsing and body transfer consume them in order.

use crate::bytes::{find_from, push_all, spec_line_len, subvec};
use vstd::prelude::*;

verus! {

/// Buffered input with a cursor. Everything before the cursor has
/// been consumed; `remaining()` is what is still to be read.
pub struct ByteReader {
    buf: Vec<u8>,
    pos: usize,
}

impl ByteReader {
    /// The cursor never passes the end of the buffer.
    pub closed spec fn wf(self) -> bool {
        self.pos <= self.buf.len()
    }

    /// The bytes not yet consumed.
    pub closed spec fn remaining(self) -> Seq<u8> {
        self.buf@.skip(self.pos as int)
    }

    /// A reader over `data`, nothing consumed yet.
    pub fn new(data: Vec<u8>) -> (r: ByteReader)
        ensures
            r.wf(),
            r.remaining() == data@,
    {
        let r = ByteReader { buf: data, pos: 0 };
        proof {
            assert(r.remaining() =~= r.buf@);
        }
        r
    }

    /// Appends freshly arrived bytes behind the unread ones.
    pub fn feed(&mut self, chunk: &Vec<u8>)
        requires
            old(self).wf(),
        ensures
            final(self).wf(),
            final(self).remaining() == old(self).remaining() + chunk@,
    {
        push_all(&mut self.buf, chunk);
        proof {
            assert(self.remaining() =~= old(self).remaining() + chunk@);
        }
    }

    /// Number of unread bytes.
    pub fn remaining_len(&self) -> (r: usize)
        requires
            self.wf(),
        ensures
            r == self.remaining().len(),
    {
        self.buf.len() - self.pos
    }

    /// Reads one line: the bytes up to and including the next line
    /// feed, or everything left when no line feed occurs. Empty
    /// exactly when the reader is exhausted.
    pub fn read_line(&mut self) -> (r: Vec<u8>)
        requires
            old(self).wf(),
        ensures
            final(self).wf(),
            r@ == old(self).remaining().take(spec_line_len(old(self).remaining())),
            final(self).remaining() == old(self).remaining().skip(
                spec_line_len(old(self).remaining()),
            ),
    {
        let ghost rem = self.remaining();
        let j = find_from(&self.buf, 10, self.pos);
        let end: usize = if j < self.buf.len() {
            j + 1
        } else {
            j
        };
        let r = subvec(&self.buf, self.pos, end);
        proof {
            assert(spec_line_len(rem) == end - self.pos);
            assert(r@ =~= rem.take(end - self.pos));
            assert(self.buf@.skip(end as int) =~= rem.skip(end - self.pos));
        }
        self.pos = end;
        r
    }

    /// Copies bytes into `sink`, in chunks of at most 1024 bytes,
    /// until the reader runs out or `limit` bytes have been copied;
    /// never more than `limit`. Without a limit, copies everything
    /// left.
    pub fn copy_up_to(&mut self, sink: &mut Vec<u8>, limit: Option<usize>) -> (r: usize)
        requires
            old(self).wf(),
        ensures
            final(self).wf(),
            ({
                let total = spec_min(
                    match limit {
                        Some(n) => n as int,
                        None => old(self).remaining().len() as int,
                    },
                    old(self).remaining().len() as int,
                );
                &&& r == total
                &&& final(sink)@ == old(sink)@ + old(self).remaining().take(total)
                &&& final(self).remaining() == old(self).remaining().skip(total)
            }),
            limit matches Some(n) ==> r <= n,
    {
        let ghost rem0 = self.remaining();
        let mut moved: usize = 0;
        proof {
            assert(self.buf.len() == self.buf@.len());
            assert(rem0.len() <= usize::MAX);
        }
        loop
            invariant_except_break
                self.wf(),
                rem0 == old(self).remaining(),
                rem0.len() <= usize::MAX,
                moved <= rem0.len(),
                limit matches Some(n) ==> moved <= n,
                self.remaining() == rem0.skip(moved as int),
                sink@ == old(sink)@ + rem0.take(moved as int),
            ensures
                self.wf(),
                ({
                    let total = spec_min(
                        match limit {
                            Some(n) => n as int,
                            None => rem0.len() as int,
                        },
                        rem0.len() as int,
                    );
                    &&& moved == total
                    &&& sink@ == old(sink)@ + rem0.take(total)
                    &&& self.remaining() == rem0.skip(total)
                }),
            decreases rem0.len() - moved,
        {
            let budget: usize = match limit {
                Some(n) => {
                    if moved >= n {
                        break;
                    }
                    if n - moved < 1024 {
                        n - moved
                    } else {
                        1024
                    }
                },
                None => 1024,
            };
            let chunk = self.read_chunk(budget);
            if chunk.len() == 0 {
                proof {
                    assert(rem0.skip(moved as int).len() == 0);
                }
                break;
            }
            push_all(sink, &chunk);
            proof {
                assert(rem0.skip(moved as int).skip(chunk@.len() as int) =~= rem0.skip(
                    moved + chunk@.len(),
                ));
                assert(old(sink)@ + rem0.take(moved as int) + rem0.skip(moved as int).take(
                    chunk@.len() as int,
                ) =~= old(sink)@ + rem0.take(moved + chunk@.len()));
            }
            moved = moved + chunk.len();
        }
        moved
    }

    /// Reads up to `max` bytes, fewer only when the reader runs out.
    pub fn read_chunk(&mut self, max: usize) -> (r: Vec<u8>)
        requires
            old(self).wf(),
        ensures
            final(self).wf(),
            r@ == old(self).remaining().take(spec_min(
                max as int,
                old(self).remaining().len() as int,
            )),
            final(self).remaining() == old(self).remaining().skip(
                spec_min(max as int, old(self).remaining().len() as int),
            ),
    {
        let ghost rem = self.remaining();
        let left = self.buf.len() - self.pos;
        let k: usize = if max < left {
            max
        } else {
            left
        };
        let r = subvec(&self.buf, self.pos, self.pos + k);
        proof {
            assert(r@ =~= rem.take(k as int));
            assert(self.buf@.skip(self.pos + k) =~= rem.skip(k as int));
        }
        self.pos = self.pos + k;
        r
    }
}

/// The smaller of two integers.
pub open spec fn spec_min(a: int, b: int) -> int {
    if a < b {
        a
    } else {
        b
    }
}

} // verus!
