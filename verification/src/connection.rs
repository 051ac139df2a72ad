//! What the event loop decides for a connection: when it has been idle too
//! long, and how much more of a body of announced length it reads.
use vstd::prelude::*;
use crate::chunked::{CHUNK_PIECE, piece_len};

verus! {

/// The nanoseconds after which an idle connection is dropped: five seconds.
pub const IDLE_TIMEOUT_NANOS: u128 = 5_000_000_000;

/// The tokens of the connections of `idle` (token, nanoseconds since last
/// active) that have been idle longer than the timeout, in order.
pub open spec fn timed_out(idle: Seq<(usize, u128)>) -> Seq<usize>
    decreases idle.len(),
{
    if idle.len() == 0 {
        Seq::empty()
    } else {
        let rest = timed_out(idle.drop_last());
        if idle.last().1 > IDLE_TIMEOUT_NANOS {
            rest.push(idle.last().0)
        } else {
            rest
        }
    }
}

/// The connections to drop: those of `idle` (token, nanoseconds since last
/// active) that have been idle longer than the timeout.
pub fn timed_out_tokens(idle: &Vec<(usize, u128)>) -> (r: Vec<usize>)
    ensures
        r@ == timed_out(idle@),
{
    let mut r: Vec<usize> = Vec::new();
    let mut i: usize = 0;
    while i < idle.len()
        invariant
            i <= idle.len(),
            r@ == timed_out(idle@.take(i as int)),
        decreases idle.len() - i,
    {
        proof {
            assert(idle@.take(i + 1).drop_last() == idle@.take(i as int));
            assert(idle@.take(i + 1).last() == idle@[i as int]);
        }
        let (token, nanos) = idle[i];
        if nanos > IDLE_TIMEOUT_NANOS {
            r.push(token);
        }
        i += 1;
    }
    proof {
        assert(idle@.take(idle.len() as int) == idle@);
    }
    r
}

/// A body of announced length, read from the connection in pieces: the
/// bytes received so far, the announced length, and whether the connection
/// stopped giving bytes.
pub struct SizedBody {
    body: Vec<u8>,
    length: usize,
    ended: bool,
}

impl SizedBody {
    /// The bytes received so far.
    pub closed spec fn body(&self) -> Seq<u8> {
        self.body@
    }

    /// The announced length.
    pub closed spec fn length(&self) -> usize {
        self.length
    }

    /// Whether the connection stopped giving bytes.
    pub closed spec fn ended(&self) -> bool {
        self.ended
    }

    /// Whether the reading is over: the body has its announced length, or
    /// the connection stopped giving bytes.
    pub open spec fn complete(&self) -> bool {
        self.ended() || self.body().len() >= self.length()
    }

    /// A body whose first bytes, `start`, came with the request's head, of
    /// announced length `content_length`.
    pub fn new(start: Vec<u8>, content_length: usize) -> (r: Self)
        ensures
            r.body() == start@,
            r.length() == content_length,
            !r.ended(),
    {
        SizedBody { body: start, length: content_length, ended: false }
    }

    /// The most bytes to read next, `None` once the reading is over: what
    /// the body still lacks, in pieces of at most `CHUNK_PIECE` bytes.
    pub fn next_read(&self) -> (r: Option<usize>)
        ensures
            r == if self.complete() {
                None
            } else {
                Some(piece_len((self.length() - self.body().len()) as usize))
            },
            r matches Some(n) ==> 0 < n <= CHUNK_PIECE,
    {
        if self.ended || self.body.len() >= self.length {
            None
        } else {
            let n = self.length - self.body.len();
            Some(
                if n < CHUNK_PIECE {
                    n
                } else {
                    CHUNK_PIECE
                },
            )
        }
    }

    /// Takes the bytes of a read: none means the connection has no more to
    /// give; otherwise they are added to the body.
    pub fn on_read(&mut self, data: &[u8])
        ensures
            final(self).length() == old(self).length(),
            data@.len() == 0 ==> final(self).ended() && final(self).body() == old(self).body(),
            data@.len() > 0 ==> final(self).ended() == old(self).ended() && final(self).body()
                == old(self).body() + data@,
    {
        if data.len() == 0 {
            self.ended = true;
        } else {
            let mut i: usize = 0;
            let ghost start = self.body@;
            while i < data.len()
                invariant
                    i <= data.len(),
                    self.body@ == start + data@.take(i as int),
                    self.length == old(self).length,
                    self.ended == old(self).ended,
                decreases data.len() - i,
            {
                proof {
                    assert(data@.take(i + 1) == data@.take(i as int).push(data@[i as int]));
                }
                self.body.push(data[i]);
                i += 1;
            }
            proof {
                assert(data@.take(data.len() as int) == data@);
            }
        }
    }

    /// The connection failed: the reading ends with the bytes received.
    pub fn on_error(&mut self)
        ensures
            final(self).length() == old(self).length(),
            final(self).body() == old(self).body(),
            final(self).ended(),
    {
        self.ended = true;
    }

    /// The bytes received.
    pub fn into_body(self) -> (r: Vec<u8>)
        ensures
            r@ == self.body(),
    {
        self.body
    }
}

} // verus!
