//! greetd's framing: each message is a 32-bit length in the machine's byte
//! order, followed by that many bytes of payload.

use vstd::prelude::*;
use vstd::bytes::{spec_u32_from_le_bytes, spec_u32_to_le_bytes, lemma_auto_spec_u32_to_from_le_bytes};
use vstd::endian::{endianness, Endian};

use crate::text::{chars_of, concat_chars, decimal, decimal_chars, string_from};

verus! {

/// The largest payload that a frame may carry.
pub const MAX_FRAME_LEN: u32 = 1048576;

/// `std::io::Error`, carried unopened in [`FrameError::Io`].
#[verifier::external_type_specification]
#[verifier::external_body]
pub struct ExIoError(std::io::Error);

/// Why a frame could not be read or written.
#[derive(Debug)]
pub enum FrameError {
    Io(std::io::Error),
    Oversized(u32),
    Truncated,
}

/// `io::Error::to_string`: the error's description, as its `Display`
/// writes it. Nothing is stated of the text, which may come from the
/// operating system.
#[verifier::external_body]
fn io_error_text(e: &std::io::Error) -> String {
    e.to_string()
}

impl FrameError {
    /// The description of the error.
    pub fn message(&self) -> (r: String)
        ensures
            match self {
                FrameError::Io(_) => exists|t: Seq<char>| r@ == "i/o error: "@ + t,
                FrameError::Oversized(len) => r@ == "frame of "@ + decimal(*len as nat)
                    + " bytes exceeds the limit"@,
                FrameError::Truncated => r@ == "stream ended in the middle of a frame"@,
            },
    {
        match self {
            FrameError::Io(e) => {
                let head = chars_of("i/o error: ");
                let text = io_error_text(e);
                let tail = chars_of(text.as_str());
                let all = concat_chars(head.as_slice(), tail.as_slice());
                assert(all@ == "i/o error: "@ + tail@);
                string_from(all.as_slice())
            },
            FrameError::Oversized(len) => {
                let head = chars_of("frame of ");
                let number = decimal_chars(*len);
                let tail = chars_of(" bytes exceeds the limit");
                let first = concat_chars(head.as_slice(), number.as_slice());
                let all = concat_chars(first.as_slice(), tail.as_slice());
                string_from(all.as_slice())
            },
            FrameError::Truncated => "stream ended in the middle of a frame".to_owned(),
        }
    }
}

/// The machine's byte order encoding of a length.
pub open spec fn ne_bytes(x: u32) -> Seq<u8> {
    match endianness() {
        Endian::Little => spec_u32_to_le_bytes(x),
        Endian::Big => spec_u32_to_le_bytes(x).reverse(),
    }
}

/// The length that four bytes encode in the machine's byte order.
pub open spec fn from_ne_bytes(s: Seq<u8>) -> u32 {
    match endianness() {
        Endian::Little => spec_u32_from_le_bytes(s),
        Endian::Big => spec_u32_from_le_bytes(s.reverse()),
    }
}

/// `u32::to_ne_bytes`: the little-endian encoding on a little-endian
/// machine, the big-endian one (its reverse) otherwise.
#[verifier::external_body]
fn u32_to_ne_bytes(x: u32) -> (b: [u8; 4])
    ensures
        b@ == ne_bytes(x),
{
    x.to_ne_bytes()
}

/// `u32::from_ne_bytes`: the inverse of `u32::to_ne_bytes` on the same
/// machine.
#[verifier::external_body]
fn u32_from_ne_bytes(b: [u8; 4]) -> (x: u32)
    ensures
        x == from_ne_bytes(b@),
{
    u32::from_ne_bytes(b)
}

/// The bytes of one frame carrying `payload`.
pub open spec fn frame_bytes(payload: Seq<u8>) -> Seq<u8> {
    ne_bytes(payload.len() as u32) + payload
}

/// A length prefix reads back as the length it encodes.
pub proof fn lemma_length_prefix_round_trip(x: u32)
    ensures
        ne_bytes(x).len() == 4,
        from_ne_bytes(ne_bytes(x)) == x,
{
    lemma_auto_spec_u32_to_from_le_bytes();
    let le = spec_u32_to_le_bytes(x);
    assert(le.reverse().reverse() =~= le);
}

/// Appends one frame carrying `payload` to `writer`. A payload longer than
/// [`MAX_FRAME_LEN`] is refused and nothing is written.
pub fn write_frame(writer: &mut Vec<u8>, payload: &[u8]) -> (r: Result<(), FrameError>)
    ensures
        match r {
            Ok(()) => payload.len() <= MAX_FRAME_LEN && final(writer)@ == old(writer)@ + frame_bytes(payload@),
            Err(FrameError::Oversized(len)) => {
                &&& payload.len() > MAX_FRAME_LEN
                &&& final(writer)@ == old(writer)@
                &&& len == (if payload.len() > u32::MAX { u32::MAX as int } else { payload.len() as int })
            },
            Err(_) => false,
        },
{
    if payload.len() as u64 > 0xFFFF_FFFFu64 {
        return Err(FrameError::Oversized(u32::MAX));
    }
    let len = payload.len() as u32;
    if len > MAX_FRAME_LEN {
        return Err(FrameError::Oversized(len));
    }
    let header = u32_to_ne_bytes(len);
    proof {
        lemma_length_prefix_round_trip(len);
    }
    let ghost start = writer@;
    writer.push(header[0]);
    writer.push(header[1]);
    writer.push(header[2]);
    writer.push(header[3]);
    assert(writer@ =~= start + header@);
    let mut i: usize = 0;
    while i < payload.len()
        invariant
            i <= payload.len(),
            writer@ =~= start + header@ + payload@.take(i as int),
        decreases payload.len() - i,
    {
        writer.push(payload[i]);
        assert(payload@.take(i + 1) =~= payload@.take(i as int).push(payload@[i as int]));
        i += 1;
    }
    assert(payload@.take(payload.len() as int) =~= payload@);
    Ok(())
}

/// How far a frame has been read, given the bytes received so far.
pub enum Progress {
    /// The frame needs this many more bytes.
    Need(nat),
    /// The frame is complete, or can never be.
    Done(FrameRead),
}

/// What a finished frame read gives.
pub enum FrameRead {
    /// A frame with this payload.
    Frame(Seq<u8>),
    /// The length prefix announces more than [`MAX_FRAME_LEN`] bytes.
    Oversized(u32),
}

/// The progress of a frame whose first bytes are `seen`: the four bytes of
/// the length prefix, then as many bytes of payload as it announces; a
/// length above [`MAX_FRAME_LEN`] ends the frame at once.
pub open spec fn progress(seen: Seq<u8>) -> Progress {
    if seen.len() < 4 {
        Progress::Need((4 - seen.len()) as nat)
    } else {
        let len = from_ne_bytes(seen.take(4));
        if len > MAX_FRAME_LEN {
            Progress::Done(FrameRead::Oversized(len))
        } else if seen.len() < 4 + len {
            Progress::Need((4 + len - seen.len()) as nat)
        } else {
            Progress::Done(FrameRead::Frame(seen.subrange(4, 4 + len)))
        }
    }
}

/// Reads one frame from bytes as they arrive. The driver asks for
/// [`FrameReader::wanted`] bytes at a time, and hands each chunk it gets to
/// [`FrameReader::feed`] (an empty chunk when the stream has ended) until
/// the frame is finished.
pub struct FrameReader {
    seen: Vec<u8>,
}

impl View for FrameReader {
    type V = Seq<u8>;

    /// The bytes received so far.
    closed spec fn view(&self) -> Seq<u8> {
        self.seen@
    }
}

impl FrameReader {
    /// The frame is not finished yet.
    pub open spec fn wf(&self) -> bool {
        progress(self@) is Need
    }

    /// A reader at the start of a frame.
    pub fn new() -> (r: Self)
        ensures
            r@ == Seq::<u8>::empty(),
            r.wf(),
    {
        FrameReader { seen: Vec::new() }
    }

    fn announced(&self) -> (len: u32)
        requires
            self@.len() >= 4,
        ensures
            len == from_ne_bytes(self@.take(4)),
    {
        let b = [self.seen[0], self.seen[1], self.seen[2], self.seen[3]];
        assert(b@ =~= self@.take(4));
        u32_from_ne_bytes(b)
    }

    /// How many bytes the frame still needs.
    pub fn wanted(&self) -> (n: usize)
        requires
            self.wf(),
        ensures
            progress(self@) == Progress::Need(n as nat),
            n > 0,
    {
        if self.seen.len() < 4 {
            4 - self.seen.len()
        } else {
            let len = self.announced() as usize;
            4 + len - self.seen.len()
        }
    }

    /// Takes the next chunk of the stream, at most [`FrameReader::wanted`]
    /// bytes, or an empty chunk at the end of the stream. Gives the outcome
    /// once the frame is finished: its payload, an oversized length, the end
    /// of the stream before the frame (`Ok(None)`), or the end of the stream
    /// inside it.
    pub fn feed(&mut self, chunk: &[u8]) -> (r: Option<Result<Option<Vec<u8>>, FrameError>>)
        requires
            old(self).wf(),
            progress(old(self)@) matches Progress::Need(n) && chunk.len() <= n,
        ensures
            chunk.len() == 0 ==> final(self)@ == old(self)@ && if old(self)@.len() == 0 {
                r matches Some(Ok(None))
            } else {
                r matches Some(Err(FrameError::Truncated))
            },
            chunk.len() > 0 ==> final(self)@ == old(self)@ + chunk@ && match progress(final(self)@) {
                Progress::Need(_) => r is None && final(self).wf(),
                Progress::Done(FrameRead::Frame(p)) => r matches Some(Ok(Some(v))) && v@ == p,
                Progress::Done(FrameRead::Oversized(len)) => r matches Some(Err(FrameError::Oversized(l))) && l == len,
            },
    {
        if chunk.len() == 0 {
            if self.seen.len() == 0 {
                return Some(Ok(None));
            }
            return Some(Err(FrameError::Truncated));
        }
        let ghost start = self@;
        let mut i: usize = 0;
        while i < chunk.len()
            invariant
                i <= chunk.len(),
                self@ == start + chunk@.take(i as int),
            decreases chunk.len() - i,
        {
            self.seen.push(chunk[i]);
            assert(chunk@.take(i + 1) =~= chunk@.take(i as int).push(chunk@[i as int]));
            assert(self@ =~= start + chunk@.take(i + 1));
            i += 1;
        }
        assert(chunk@.take(chunk.len() as int) =~= chunk@);
        if self.seen.len() < 4 {
            return None;
        }
        let len = self.announced();
        if len > MAX_FRAME_LEN {
            return Some(Err(FrameError::Oversized(len)));
        }
        if self.seen.len() < 4 + len as usize {
            return None;
        }
        let mut payload: Vec<u8> = Vec::new();
        let end = 4 + len as usize;
        let mut k: usize = 4;
        while k < end
            invariant
                4 <= k <= end,
                end <= self.seen.len(),
                payload@ == self@.subrange(4, k as int),
            decreases end - k,
        {
            payload.push(self.seen[k]);
            assert(self@.subrange(4, k + 1) =~= self@.subrange(4, k as int).push(self@[k as int]));
            k += 1;
        }
        Some(Ok(Some(payload)))
    }
}

/// Reading back what was written gives the same payload: every proper
/// prefix of a frame asks for more bytes, never past the frame's end, so
/// however the stream is cut into chunks, the reader finishes at the frame's
/// last byte, with the payload that was written.
pub proof fn lemma_read_after_write(payload: Seq<u8>, k: int)
    requires
        payload.len() <= MAX_FRAME_LEN,
        0 <= k < frame_bytes(payload).len(),
    ensures
        progress(frame_bytes(payload).take(k)) matches Progress::Need(n) && 0 < n <= frame_bytes(
            payload,
        ).len() - k,
        progress(frame_bytes(payload)) == Progress::Done(FrameRead::Frame(payload)),
{
    lemma_length_prefix_round_trip(payload.len() as u32);
    let s = frame_bytes(payload);
    assert(s.take(4) =~= ne_bytes(payload.len() as u32));
    assert(s.subrange(4, 4 + payload.len() as int) =~= payload);
    if k >= 4 {
        assert(s.take(k).take(4) =~= s.take(4));
    }
}

/// How reading a frame from a stream ends when each read delivers at most
/// the next of the given sizes.
pub enum ChunkedRead {
    /// The frame finished after this many bytes.
    Finished(FrameRead, nat),
    /// The stream ran out after this many bytes.
    Ended(nat),
    /// The reads ran out after this many bytes.
    Pending(nat),
}

/// Reading a frame from a stream whose bytes are `s`, `seen` of them taken
/// already, where each read delivers as many bytes as the reader asks for,
/// the read allows and the stream still holds, whichever is least.
pub open spec fn read_in_chunks(s: Seq<u8>, seen: nat, sizes: Seq<nat>) -> ChunkedRead
    decreases sizes.len(),
{
    match progress(s.take(seen as int)) {
        Progress::Done(r) => ChunkedRead::Finished(r, seen),
        Progress::Need(n) => {
            if sizes.len() == 0 {
                ChunkedRead::Pending(seen)
            } else {
                let left = if s.len() >= seen { (s.len() - seen) as nat } else { 0nat };
                let k = if sizes[0] <= n && sizes[0] <= left {
                    sizes[0]
                } else if n <= left {
                    n
                } else {
                    left
                };
                if k == 0 {
                    ChunkedRead::Ended(seen)
                } else {
                    read_in_chunks(s, seen + k, sizes.drop_first())
                }
            }
        },
    }
}

proof fn lemma_chunked_read_of_frame(payload: Seq<u8>, rest: Seq<u8>, seen: nat, sizes: Seq<nat>)
    requires
        payload.len() <= MAX_FRAME_LEN,
        seen < frame_bytes(payload).len(),
        sizes.len() + seen >= frame_bytes(payload).len(),
        forall|i: int| 0 <= i < sizes.len() ==> #[trigger] sizes[i] >= 1,
    ensures
        read_in_chunks(frame_bytes(payload) + rest, seen, sizes) == ChunkedRead::Finished(
            FrameRead::Frame(payload),
            frame_bytes(payload).len(),
        ),
    decreases sizes.len(),
{
    let f = frame_bytes(payload);
    let s = f + rest;
    lemma_read_after_write(payload, seen as int);
    assert(s.take(seen as int) =~= f.take(seen as int));
    let n = match progress(f.take(seen as int)) {
        Progress::Need(n) => n,
        Progress::Done(_) => 0,
    };
    assert(sizes[0] >= 1);
    let left = (s.len() - seen) as nat;
    let k = if sizes[0] <= n && sizes[0] <= left {
        sizes[0]
    } else if n <= left {
        n
    } else {
        left
    };
    let next = seen + k;
    if next < f.len() {
        assert forall|i: int| 0 <= i < sizes.drop_first().len() implies #[trigger] sizes.drop_first()[i] >= 1 by {
            assert(sizes.drop_first()[i] == sizes[i + 1]);
        }
        lemma_chunked_read_of_frame(payload, rest, next, sizes.drop_first());
    } else {
        assert(next == f.len());
        assert(s.take(next as int) =~= f);
        lemma_read_after_write(payload, 0);
    }
}

/// However the reads cut the stream, as long as each delivers at least one
/// byte, reading a written frame gives its payload and takes exactly its
/// bytes, leaving what follows it unread.
pub proof fn lemma_read_after_write_in_any_chunks(payload: Seq<u8>, rest: Seq<u8>, sizes: Seq<nat>)
    requires
        payload.len() <= MAX_FRAME_LEN,
        sizes.len() >= frame_bytes(payload).len(),
        forall|i: int| 0 <= i < sizes.len() ==> #[trigger] sizes[i] >= 1,
    ensures
        read_in_chunks(frame_bytes(payload) + rest, 0, sizes) == ChunkedRead::Finished(
            FrameRead::Frame(payload),
            frame_bytes(payload).len(),
        ),
{
    lemma_length_prefix_round_trip(payload.len() as u32);
    lemma_chunked_read_of_frame(payload, rest, 0, sizes);
}

/// A length prefix that announces more than [`MAX_FRAME_LEN`] bytes ends
/// the read as soon as its four bytes are in, whatever follows them, and
/// reports the length it announced; before that the reader asks only for
/// the rest of the prefix.
pub proof fn lemma_oversized_length_ends_the_read(len: u32, rest: Seq<u8>, k: int)
    requires
        len > MAX_FRAME_LEN,
        0 <= k < 4,
    ensures
        progress(ne_bytes(len) + rest) == Progress::Done(FrameRead::Oversized(len)),
        progress((ne_bytes(len) + rest).take(k)) == Progress::Need((4 - k) as nat),
{
    lemma_length_prefix_round_trip(len);
    assert((ne_bytes(len) + rest).take(4) =~= ne_bytes(len));
}

} // verus!
