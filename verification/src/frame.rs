//! Wire framing: a frame is the hexadecimal text of a blob followed by one
//! delimiter byte. Hexadecimal text never holds the delimiter, so a receiver
//! finds the end of a frame by looking for the first delimiter.

use crate::hex;
use vstd::prelude::*;

verus! {

/// The byte that ends a frame: a line feed.
pub const DELIMITER: u8 = 0x0A;

/// The frame that carries `blob`.
pub open spec fn framed(blob: Seq<u8>) -> Seq<u8> {
    hex::encoded(blob).push(DELIMITER)
}

/// The number of bytes of `bytes` before its first delimiter; its length
/// where it holds none.
pub open spec fn frame_len(bytes: Seq<u8>) -> int
    decreases bytes.len(),
{
    if bytes.len() > 0 && bytes.first() != DELIMITER {
        1 + frame_len(bytes.drop_first())
    } else {
        0
    }
}

/// The complete frames at the front of `bytes`, each without its
/// delimiter, and the bytes of the unfinished frame that are left.
pub open spec fn split(bytes: Seq<u8>) -> (Seq<Seq<u8>>, Seq<u8>)
    decreases bytes.len(),
{
    let n = frame_len(bytes);
    if 0 <= n < bytes.len() {
        let (frames, rest) = split(bytes.skip(n + 1));
        (seq![bytes.take(n)] + frames, rest)
    } else {
        (Seq::empty(), bytes)
    }
}

/// `frame_len` is the index of the first delimiter.
pub proof fn lemma_frame_len(bytes: Seq<u8>, n: int)
    requires
        0 <= n <= bytes.len(),
        forall|j: int| 0 <= j < n ==> #[trigger] bytes[j] != DELIMITER,
        n < bytes.len() ==> bytes[n] == DELIMITER,
    ensures
        frame_len(bytes) == n,
    decreases n,
{
    if n > 0 {
        let rest = bytes.drop_first();
        assert forall|j: int| 0 <= j < n - 1 implies #[trigger] rest[j] != DELIMITER by {
            assert(rest[j] == bytes[j + 1]);
        }
        lemma_frame_len(rest, n - 1);
    }
}

/// `frame_len` lies within the bytes.
pub proof fn lemma_frame_len_bounds(bytes: Seq<u8>)
    ensures
        0 <= frame_len(bytes) <= bytes.len(),
        frame_len(bytes) < bytes.len() ==> bytes[frame_len(bytes)] == DELIMITER,
        forall|j: int| 0 <= j < frame_len(bytes) ==> #[trigger] bytes[j] != DELIMITER,
    decreases bytes.len(),
{
    if bytes.len() > 0 && bytes.first() != DELIMITER {
        let rest = bytes.drop_first();
        lemma_frame_len_bounds(rest);
        assert forall|j: int| 0 <= j < frame_len(bytes) implies #[trigger] bytes[j]
            != DELIMITER by {
            if j > 0 {
                assert(bytes[j] == rest[j - 1]);
            }
        }
        if frame_len(bytes) < bytes.len() {
            assert(bytes[frame_len(bytes)] == rest[frame_len(rest)]);
        }
    }
}

/// How `split` goes on: it takes the bytes before the first delimiter as a
/// frame and splits what follows the delimiter; with no delimiter, nothing
/// is complete.
pub proof fn lemma_split_step(bytes: Seq<u8>)
    ensures
        frame_len(bytes) < bytes.len() ==> split(bytes) == (
            seq![bytes.take(frame_len(bytes))] + split(bytes.skip(frame_len(bytes) + 1)).0,
            split(bytes.skip(frame_len(bytes) + 1)).1,
        ),
        frame_len(bytes) >= bytes.len() ==> split(bytes) == (Seq::<Seq<u8>>::empty(), bytes),
{
    lemma_frame_len_bounds(bytes);
}

/// A frame holds exactly one delimiter, at its end: whatever follows a
/// frame on the wire, a receiver that splits at the first delimiter gets
/// the text of the blob, and decoding it gives the blob back.
pub proof fn lemma_framed_splits(blob: Seq<u8>, rest: Seq<u8>)
    ensures
        frame_len(framed(blob) + rest) == 2 * blob.len(),
        (framed(blob) + rest).take(2 * (blob.len() as int)) == hex::encoded(blob),
        (framed(blob) + rest).skip(2 * (blob.len() as int) + 1) == rest,
        hex::decoded(hex::encoded(blob)) == Some(blob),
        split(framed(blob) + rest) == (seq![hex::encoded(blob)] + split(rest).0, split(rest).1),
{
    let wire = framed(blob) + rest;
    let n = 2 * (blob.len() as int);
    hex::lemma_encoded_is_digits(blob);
    hex::lemma_decode_encode(blob);
    assert forall|j: int| 0 <= j < n implies #[trigger] wire[j] != DELIMITER by {
        assert(wire[j] == hex::encoded(blob)[j]);
        assert(hex::is_digit(hex::encoded(blob)[j]));
    }
    assert(wire[n] == DELIMITER);
    lemma_frame_len(wire, n);
    assert(wire.take(n) =~= hex::encoded(blob));
    assert(wire.skip(n + 1) =~= rest);
    lemma_split_step(wire);
}

/// Frames `blob` for the wire; `None` where the frame would not fit in
/// memory.
pub fn encode_frame(blob: &[u8]) -> (frame: Option<Vec<u8>>)
    ensures
        frame is Some <==> 2 * blob@.len() + 1 <= isize::MAX,
        frame matches Some(f) ==> f@ == framed(blob@),
{
    if blob.len() > (isize::MAX as usize - 1) / 2 {
        return None;
    }
    let mut frame = hex::encode(blob);
    frame.push(DELIMITER);
    Some(frame)
}

/// Reads the text of a frame, without its delimiter, back into the blob;
/// `None` where the text is malformed.
pub fn decode_frame(text: &[u8]) -> (blob: Option<Vec<u8>>)
    ensures
        match blob {
            Some(b) => hex::decoded(text@) == Some(b@),
            None => hex::decoded(text@) is None,
        },
{
    hex::decode(text)
}

/// The read buffer of one connection: the bytes received that do not yet
/// make up a complete frame.
pub struct FrameBuffer {
    pending: Vec<u8>,
}

impl View for FrameBuffer {
    type V = Seq<u8>;

    closed spec fn view(&self) -> Seq<u8> {
        self.pending@
    }
}

impl FrameBuffer {
    /// An empty buffer.
    pub fn new() -> (buffer: Self)
        ensures
            buffer@ == Seq::<u8>::empty(),
    {
        FrameBuffer { pending: Vec::new() }
    }

    /// The number of bytes waiting.
    pub fn len(&self) -> (n: usize)
        ensures
            n == self@.len(),
    {
        self.pending.len()
    }

    /// Appends bytes as they arrive from the transport.
    pub fn extend(&mut self, chunk: &[u8])
        ensures
            final(self)@ == old(self)@ + chunk@,
    {
        let mut i: usize = 0;
        while i < chunk.len()
            invariant
                i <= chunk@.len(),
                self.pending@ == old(self).pending@ + chunk@.take(i as int),
            decreases chunk@.len() - i,
        {
            self.pending.push(chunk[i]);
            assert(self.pending@ =~= old(self).pending@ + chunk@.take(i + 1));
            i += 1;
        }
        assert(self.pending@ =~= old(self).pending@ + chunk@);
    }

    /// Takes the first complete frame out of the buffer and returns its
    /// text, without the delimiter. Where no delimiter has arrived yet, the
    /// buffer is left as it is.
    pub fn next_frame(&mut self) -> (text: Option<Vec<u8>>)
        ensures
            match text {
                Some(t) => {
                    &&& frame_len(old(self)@) < old(self)@.len()
                    &&& t@ == old(self)@.take(frame_len(old(self)@))
                    &&& final(self)@ == old(self)@.skip(frame_len(old(self)@) + 1)
                },
                None => frame_len(old(self)@) == old(self)@.len() && final(self)@ == old(self)@,
            },
    {
        let mut n: usize = 0;
        while n < self.pending.len() && self.pending[n] != DELIMITER
            invariant
                n <= self.pending@.len(),
                self.pending@ == old(self).pending@,
                forall|j: int| 0 <= j < n ==> #[trigger] self.pending@[j] != DELIMITER,
            decreases self.pending@.len() - n,
        {
            n += 1;
        }
        proof {
            lemma_frame_len(self.pending@, n as int);
        }
        if n == self.pending.len() {
            return None;
        }
        let mut text = self.pending.split_off(n + 1);
        self.pending.truncate(n);
        core::mem::swap(&mut self.pending, &mut text);
        assert(text@ =~= old(self)@.take(n as int));
        assert(self.pending@ =~= old(self)@.skip(n + 1));
        Some(text)
    }
}

} // verus!
