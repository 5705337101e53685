//! Per-connection receive buffering and zero-byte framing.
//!
//! Encoded messages travel as `encoding ∥ 0x00`.  A `RecvBuffer` accumulates
//! whatever the transport delivers, in chunks of any size, and hands back one
//! decoded message per complete frame.

use vstd::prelude::*;
use crate::msg::{ClientMessage, ServerMessage};
use crate::wire::{
    decode_client, decode_server, enc_client, enc_server, lemma_enc_client_zero_free,
    lemma_enc_server_zero_free, zero_free,
};
use crate::codec::lemma_split_unique;

verus! {

/// Some byte of `s` is the frame separator.
pub open spec fn has_zero(s: Seq<u8>) -> bool {
    exists|i: int| 0 <= i < s.len() && s[i] == 0
}

/// Result of scanning the buffer for one complete frame.
pub enum FrameStep {
    /// A full frame was present; its bytes, separator stripped.
    Frame(Vec<u8>),
    /// No separator yet and room to read more.
    Pending,
    /// No separator and the buffer is full: the frame can never complete.
    Overflow,
}

/// Result of taking one message out of a `RecvBuffer`.
#[derive(Debug, PartialEq, Eq)]
pub enum RecvOutcome<M> {
    /// A complete frame decoded to this message.
    Msg(M),
    /// A complete frame was not a canonical encoding.
    Malformed,
    /// No complete frame yet; read more and try again.
    Pending,
    /// The buffer is full with no separator in sight.
    Overflow,
}

/// A growable read buffer with a fixed capacity, holding the bytes received
/// so far that belong to frames not yet taken out.
pub struct RecvBuffer {
    data: Vec<u8>,
    cap: usize,
}

impl RecvBuffer {
    /// The bytes waiting in the buffer.
    pub closed spec fn contents(self) -> Seq<u8> {
        self.data@
    }

    /// The most bytes the buffer will hold.
    pub closed spec fn cap(self) -> nat {
        self.cap as nat
    }

    pub open spec fn wf(self) -> bool {
        self.contents().len() <= self.cap()
    }

    pub fn new(capacity: usize) -> (r: Self)
        ensures
            r.wf(),
            r.contents() == Seq::<u8>::empty(),
            r.cap() == capacity,
    {
        RecvBuffer { data: Vec::new(), cap: capacity }
    }

    /// How many more bytes `fill` will accept.
    pub fn free_len(&self) -> (r: usize)
        requires
            self.wf(),
        ensures
            r == self.cap() - self.contents().len(),
    {
        self.cap - self.data.len()
    }

    /// Appends bytes the transport delivered.
    pub fn fill(&mut self, chunk: &[u8])
        requires
            old(self).wf(),
            chunk@.len() <= old(self).cap() - old(self).contents().len(),
        ensures
            final(self).wf(),
            final(self).cap() == old(self).cap(),
            final(self).contents() == old(self).contents() + chunk@,
    {
        let mut k: usize = 0;
        while k < chunk.len()
            invariant
                k <= chunk@.len(),
                self.cap == old(self).cap,
                self.data@ == old(self).data@ + chunk@.take(k as int),
            decreases chunk@.len() - k,
        {
            self.data.push(chunk[k]);
            k = k + 1;
            proof {
                assert(self.data@ =~= old(self).data@ + chunk@.take(k as int));
            }
        }
        proof {
            assert(self.data@ =~= old(self).data@ + chunk@);
        }
    }

    /// Scans for a separator and takes the first complete frame out.
    pub fn take_frame(&mut self) -> (r: FrameStep)
        requires
            old(self).wf(),
        ensures
            final(self).wf(),
            final(self).cap() == old(self).cap(),
            (r matches FrameStep::Frame(f) ==> zero_free(f@) && old(self).contents() == f@
                + seq![0u8] + final(self).contents()),
            (r is Pending ==> *final(self) == *old(self) && !has_zero(old(self).contents()) && old(
                self,
            ).contents().len() < old(self).cap()),
            (r is Overflow ==> *final(self) == *old(self) && !has_zero(old(self).contents()) && old(
                self,
            ).contents().len() == old(self).cap()),
    {
        let n = self.data.len();
        let mut i: usize = 0;
        while i < n && self.data[i] != 0
            invariant
                i <= n == self.data@.len(),
                self == old(self),
                forall|k: int| 0 <= k < i ==> self.data@[k] != 0,
            decreases n - i,
        {
            i = i + 1;
        }
        if i == n {
            proof {
                assert(!has_zero(self.data@));
            }
            if n == self.cap {
                FrameStep::Overflow
            } else {
                FrameStep::Pending
            }
        } else {
            let mut frame: Vec<u8> = Vec::new();
            let mut k: usize = 0;
            while k < i
                invariant
                    k <= i < self.data@.len(),
                    self == old(self),
                    frame@ == self.data@.take(k as int),
                decreases i - k,
            {
                frame.push(self.data[k]);
                k = k + 1;
                proof {
                    assert(frame@ =~= self.data@.take(k as int));
                }
            }
            let mut rest: Vec<u8> = Vec::new();
            let mut j: usize = i + 1;
            while j < n
                invariant
                    i < n == self.data@.len(),
                    i + 1 <= j <= n,
                    self == old(self),
                    rest@ == self.data@.subrange(i + 1, j as int),
                decreases n - j,
            {
                rest.push(self.data[j]);
                j = j + 1;
                proof {
                    assert(rest@ =~= self.data@.subrange(i + 1, j as int));
                }
            }
            proof {
                assert(old(self).data@ =~= frame@ + seq![0u8] + rest@);
            }
            self.data = rest;
            FrameStep::Frame(frame)
        }
    }

    /// Takes one framed client message out of the buffer.
    pub fn next_client_message(&mut self) -> (r: RecvOutcome<ClientMessage>)
        requires
            old(self).wf(),
        ensures
            final(self).wf(),
            final(self).cap() == old(self).cap(),
            (r matches RecvOutcome::Msg(m) ==> old(self).contents() == enc_client(m) + seq![0u8]
                + final(self).contents()),
            (r is Malformed ==> exists|f: Seq<u8>|
                zero_free(f) && old(self).contents() == f + seq![0u8] + final(self).contents()
                    && (forall|m: ClientMessage| f != enc_client(m))),
            (r is Pending ==> *final(self) == *old(self) && !has_zero(old(self).contents()) && old(
                self,
            ).contents().len() < old(self).cap()),
            (r is Overflow ==> *final(self) == *old(self) && !has_zero(old(self).contents()) && old(
                self,
            ).contents().len() == old(self).cap()),
    {
        match self.take_frame() {
            FrameStep::Frame(f) => match decode_client(f.as_slice()) {
                Some(m) => RecvOutcome::Msg(m),
                None => RecvOutcome::Malformed,
            },
            FrameStep::Pending => RecvOutcome::Pending,
            FrameStep::Overflow => RecvOutcome::Overflow,
        }
    }

    /// Takes one framed server message out of the buffer.
    pub fn next_server_message(&mut self) -> (r: RecvOutcome<ServerMessage>)
        requires
            old(self).wf(),
        ensures
            final(self).wf(),
            final(self).cap() == old(self).cap(),
            (r matches RecvOutcome::Msg(m) ==> old(self).contents() == enc_server(m) + seq![0u8]
                + final(self).contents()),
            (r is Malformed ==> exists|f: Seq<u8>|
                zero_free(f) && old(self).contents() == f + seq![0u8] + final(self).contents()
                    && (forall|m: ServerMessage| f != enc_server(m))),
            (r is Pending ==> *final(self) == *old(self) && !has_zero(old(self).contents()) && old(
                self,
            ).contents().len() < old(self).cap()),
            (r is Overflow ==> *final(self) == *old(self) && !has_zero(old(self).contents()) && old(
                self,
            ).contents().len() == old(self).cap()),
    {
        match self.take_frame() {
            FrameStep::Frame(f) => match decode_server(f.as_slice()) {
                Some(m) => RecvOutcome::Msg(m),
                None => RecvOutcome::Malformed,
            },
            FrameStep::Pending => RecvOutcome::Pending,
            FrameStep::Overflow => RecvOutcome::Overflow,
        }
    }
}

/// A byte stream splits at a separator in only one way when neither frame
/// candidate contains the separator itself.
pub proof fn lemma_frame_split_unique(f1: Seq<u8>, r1: Seq<u8>, f2: Seq<u8>, r2: Seq<u8>)
    requires
        zero_free(f1),
        zero_free(f2),
        f1 + seq![0u8] + r1 == f2 + seq![0u8] + r2,
    ensures
        f1 == f2,
        r1 == r2,
{
    lemma_split_unique(f1, r1, f2, r2, 0);
}

/// Framing is unambiguous: the byte stream carrying two framed client
/// messages yields exactly those messages, whatever the chunking.  The first
/// complete frame is the first message's encoding, the remainder carries the
/// second, and a stream cut anywhere before a separator holds no frame at
/// all, so the receiver keeps waiting rather than guess.
pub proof fn lemma_client_stream_frames(m1: ClientMessage, m2: ClientMessage)
    ensures
        forall|f: Seq<u8>, r: Seq<u8>|
            zero_free(f) && enc_client(m1) + seq![0u8] + (enc_client(m2) + seq![0u8]) == #[trigger] (f
                + seq![0u8] + r) ==> f == enc_client(m1) && r == enc_client(m2) + seq![0u8],
        forall|f: Seq<u8>, r: Seq<u8>|
            zero_free(f) && enc_client(m2) + seq![0u8] == #[trigger] (f + seq![0u8] + r) ==> f == enc_client(m2)
                && r == Seq::<u8>::empty(),
        forall|k: int|
            0 <= k <= enc_client(m1).len() ==> !has_zero(#[trigger] enc_client(m1).take(k)),
{
    lemma_enc_client_zero_free(m1);
    lemma_enc_client_zero_free(m2);
    assert forall|f: Seq<u8>, r: Seq<u8>|
        zero_free(f) && enc_client(m1) + seq![0u8] + (enc_client(m2) + seq![0u8]) == #[trigger] (f
            + seq![0u8] + r) implies f == enc_client(m1) && r == enc_client(m2) + seq![0u8] by {
        lemma_frame_split_unique(enc_client(m1), enc_client(m2) + seq![0u8], f, r);
    }
    assert forall|f: Seq<u8>, r: Seq<u8>|
        zero_free(f) && enc_client(m2) + seq![0u8] == #[trigger] (f + seq![0u8] + r) implies f == enc_client(m2)
            && r == Seq::<u8>::empty() by {
        assert(enc_client(m2) + seq![0u8] =~= enc_client(m2) + seq![0u8] + Seq::<u8>::empty());
        lemma_frame_split_unique(enc_client(m2), Seq::<u8>::empty(), f, r);
    }
    assert forall|k: int|
        0 <= k <= enc_client(m1).len() implies !has_zero(#[trigger] enc_client(m1).take(k)) by {
        assert forall|i: int| 0 <= i < k implies enc_client(m1).take(k)[i] != 0 by {
            assert(enc_client(m1).take(k)[i] == enc_client(m1)[i]);
        }
    }
}

/// The server-to-client direction of the same framing law.
pub proof fn lemma_server_stream_frames(m1: ServerMessage, m2: ServerMessage)
    ensures
        forall|f: Seq<u8>, r: Seq<u8>|
            zero_free(f) && enc_server(m1) + seq![0u8] + (enc_server(m2) + seq![0u8]) == #[trigger] (f
                + seq![0u8] + r) ==> f == enc_server(m1) && r == enc_server(m2) + seq![0u8],
        forall|f: Seq<u8>, r: Seq<u8>|
            zero_free(f) && enc_server(m2) + seq![0u8] == #[trigger] (f + seq![0u8] + r) ==> f == enc_server(m2)
                && r == Seq::<u8>::empty(),
        forall|k: int|
            0 <= k <= enc_server(m1).len() ==> !has_zero(#[trigger] enc_server(m1).take(k)),
{
    lemma_enc_server_zero_free(m1);
    lemma_enc_server_zero_free(m2);
    assert forall|f: Seq<u8>, r: Seq<u8>|
        zero_free(f) && enc_server(m1) + seq![0u8] + (enc_server(m2) + seq![0u8]) == #[trigger] (f
            + seq![0u8] + r) implies f == enc_server(m1) && r == enc_server(m2) + seq![0u8] by {
        lemma_frame_split_unique(enc_server(m1), enc_server(m2) + seq![0u8], f, r);
    }
    assert forall|f: Seq<u8>, r: Seq<u8>|
        zero_free(f) && enc_server(m2) + seq![0u8] == #[trigger] (f + seq![0u8] + r) implies f == enc_server(m2)
            && r == Seq::<u8>::empty() by {
        assert(enc_server(m2) + seq![0u8] =~= enc_server(m2) + seq![0u8] + Seq::<u8>::empty());
        lemma_frame_split_unique(enc_server(m2), Seq::<u8>::empty(), f, r);
    }
    assert forall|k: int|
        0 <= k <= enc_server(m1).len() implies !has_zero(#[trigger] enc_server(m1).take(k)) by {
        assert forall|i: int| 0 <= i < k implies enc_server(m1).take(k)[i] != 0 by {
            assert(enc_server(m1).take(k)[i] == enc_server(m1)[i]);
        }
    }
}

} // verus!
