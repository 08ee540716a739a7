//! The per-connection buffering engine.
//!
//! A connection owns a growable byte buffer holding exactly the bytes read
//! from its stream but not yet consumed into a returned frame. The stream
//! itself stays with the caller: the caller reads chunks and feeds them in,
//! and this engine decides, purely from the buffered bytes, whether a whole
//! frame is available, more input is needed, or the peer sent garbage. When
//! the stream reports end-of-file the engine likewise decides whether that
//! was a clean close (empty buffer) or a connection reset (a frame was cut
//! short mid-transmission).

use vstd::prelude::*;

use crate::decode::DecodeOutcome;
use crate::decode::Decoded;
use crate::decode::decode;
use crate::decode::frame_dec;
use crate::frame::Frame;
use crate::frame::frame_wf;

verus! {

/// Result of one attempt to take a frame out of the buffer.
pub enum ReadOutcome {
    /// A complete frame was buffered; its bytes have been evicted.
    Frame(Frame),
    /// The buffer holds a well-formed but incomplete prefix: feed more bytes.
    NeedMore,
    /// The buffered bytes are invalid framing: the connection is corrupted.
    Corrupt,
}

/// What an end-of-file means for this connection.
#[derive(Debug, PartialEq, Eq)]
pub enum EofOutcome {
    /// End of stream with an empty buffer: an orderly close, no frame lost.
    CleanClose,
    /// End of stream mid-frame: the peer reset the connection.
    Reset,
}

/// The buffer of not-yet-consumed bytes of one connection.
pub struct FrameBuffer {
    data: Vec<u8>,
}

impl FrameBuffer {
    /// The bytes read from the stream but not yet consumed into a frame.
    pub closed spec fn buffered(&self) -> Seq<u8> {
        self.data@
    }

    /// A fresh buffer for a newly accepted connection. Starts with a 4 KiB
    /// capacity and grows as needed; it never shrinks, trading memory for
    /// steady-state traffic without reallocation churn.
    pub fn new() -> (c: FrameBuffer)
        ensures
            c.buffered() == Seq::<u8>::empty(),
    {
        FrameBuffer { data: Vec::with_capacity(4096) }
    }

    /// Appends a chunk just read from the stream. Chunk boundaries carry no
    /// meaning: only the concatenation of everything fed so far matters.
    pub fn feed(&mut self, chunk: &[u8])
        ensures
            final(self).buffered() == old(self).buffered() + chunk@,
    {
        crate::frame::push_all(&mut self.data, chunk);
    }

    /// Number of buffered bytes.
    pub fn len(&self) -> (n: usize)
        ensures
            n == self.buffered().len(),
    {
        self.data.len()
    }

    /// Attempts to decode one frame from the front of the buffer. On
    /// success the frame's bytes are evicted, so the buffer again holds
    /// only unconsumed bytes; otherwise the buffer is left untouched.
    pub fn try_read_frame(&mut self) -> (r: ReadOutcome)
        ensures
            match r {
                ReadOutcome::Frame(f) => frame_dec(old(self).buffered()) matches Decoded::Found(
                    sf,
                    n,
                ) && f@ == sf && frame_wf(sf) && final(self).buffered() == old(
                    self,
                ).buffered().skip(n),
                ReadOutcome::NeedMore => frame_dec(old(self).buffered()) == Decoded::More
                    && final(self).buffered() == old(self).buffered(),
                ReadOutcome::Corrupt => frame_dec(old(self).buffered()) == Decoded::Bad
                    && final(self).buffered() == old(self).buffered(),
            },
    {
        match decode(self.data.as_slice()) {
            DecodeOutcome::Found(f, n) => {
                let mut rest: Vec<u8> = Vec::new();
                let mut j = n;
                proof {
                    assert(rest@ =~= self.data@.subrange(n as int, n as int));
                }
                while j < self.data.len()
                    invariant
                        n <= j <= self.data@.len(),
                        rest@ == self.data@.subrange(n as int, j as int),
                    decreases self.data@.len() - j,
                {
                    let b = self.data[j];
                    rest.push(b);
                    proof {
                        assert(rest@ =~= self.data@.subrange(n as int, j + 1));
                    }
                    j = j + 1;
                }
                proof {
                    assert(rest@ =~= self.data@.skip(n as int));
                }
                self.data = rest;
                ReadOutcome::Frame(f)
            },
            DecodeOutcome::More => ReadOutcome::NeedMore,
            DecodeOutcome::Bad => ReadOutcome::Corrupt,
        }
    }

    /// Classifies an end-of-file reported by the stream: a clean close if
    /// and only if no partial frame is pending in the buffer.
    pub fn on_eof(&self) -> (r: EofOutcome)
        ensures
            r == (if self.buffered().len() == 0 {
                EofOutcome::CleanClose
            } else {
                EofOutcome::Reset
            }),
    {
        if self.data.is_empty() {
            EofOutcome::CleanClose
        } else {
            EofOutcome::Reset
        }
    }
}

/// Partial-then-reset law: a connection whose buffer holds exactly the
/// first `k` bytes (`0 < k < n`) of any complete frame's bytes — a request
/// array as much as a scalar frame — is mid-frame: `try_read_frame` asks
/// for more input rather than yielding a frame or an error, and because the
/// buffer is not empty, `on_eof` reports `Reset`, never `CleanClose`. (With
/// an empty buffer, `on_eof`'s contract gives `CleanClose`: zero bytes
/// followed by end-of-file is no error.)
pub proof fn lemma_partial_frame_resets(
    c: FrameBuffer,
    s: Seq<u8>,
    f: crate::frame::SpecFrame,
    n: int,
    k: int,
)
    requires
        frame_dec(s) == Decoded::Found(f, n),
        0 < k < n,
        c.buffered() == s.subrange(0, k),
    ensures
        frame_dec(c.buffered()) == Decoded::More,
        c.buffered().len() != 0,
{
    crate::decode::lemma_dec_bounds(s);
    crate::decode::lemma_dec_prefix(s, f, n, k);
}

} // verus!
