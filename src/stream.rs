//! The rolling input buffer between a chunked byte source and the tokenizer.
//!
//! The stream owns the bytes that arrived but were not yet tokenized. Its
//! owner drives it: `advance` yields the next token, or asks for a chunk when
//! the bytes at hand cannot settle one; the owner then pulls a chunk from the
//! source and hands it over with `supply_chunk`, or reports the end of the
//! source with `supply_end`.
use vstd::prelude::*;
use crate::model::{MyError, hex_string, hex_text};
use crate::decode::{ConsumableBytes, Context, DecodeError, JsonDecoder, JsonToken, Step, TokenType,
    decode_outcome, token_is};

verus! {

#[verifier::external_type_specification]
#[verifier::external_body]
pub struct ExIoError(std::io::Error);

/// Error type from token streams.
#[derive(Debug)]
pub enum Error {
    /// Propagated error from the underlying source
    IoError(std::io::Error),
    /// Error that occurred during Json decoding.
    DecodeError(DecodeError),
}

/// The message that reports a stream error.
pub open spec fn error_text(e: Error) -> Seq<char> {
    match e {
        Error::IoError(_) => "I/O-Error occurred"@,
        Error::DecodeError(d) => match d {
            DecodeError::InvalidUnicodeEscape(p) => "Decode-Error: String contains a sequence "@ + hex_text(p as nat)
                + " which is an invalid unicode code point"@,
            DecodeError::NeedsMore => "Decode-Error: Needs more"@,
            DecodeError::UnexpectedEndOfStream =>
                "Decode-Error: More input needed to finish parse, but input bytes marked as end of stream"@,
            DecodeError::InvalidUtf8 => "Decode-Error: Invalid UTF-8"@,
            DecodeError::UnexpectedByte(p) => "Decode-Error: found an invalid byte: "@ + hex_text(p as nat),
        },
    }
}

impl MyError {
    /// The error that reports a stream error.
    pub fn from_stream_error(source_error: &Error) -> (r: MyError)
        ensures
            r.message@ == error_text(*source_error),
    {
        match source_error {
            Error::IoError(_) => MyError::new(String::from_str("I/O-Error occurred")),
            Error::DecodeError(content) => match content {
                DecodeError::InvalidUnicodeEscape(payload) => {
                    let mut m = String::from_str("Decode-Error: String contains a sequence ");
                    let h = hex_string(*payload);
                    m.append(h.as_str());
                    m.append(" which is an invalid unicode code point");
                    MyError::new(m)
                },
                DecodeError::NeedsMore => MyError::new(String::from_str("Decode-Error: Needs more")),
                DecodeError::UnexpectedEndOfStream => MyError::new(String::from_str(
                    "Decode-Error: More input needed to finish parse, but input bytes marked as end of stream",
                )),
                DecodeError::InvalidUtf8 => MyError::new(String::from_str("Decode-Error: Invalid UTF-8")),
                DecodeError::UnexpectedByte(payload) => {
                    let mut m = String::from_str("Decode-Error: found an invalid byte: ");
                    let h = hex_string(*payload as u32);
                    m.append(h.as_str());
                    MyError::new(m)
                },
            },
        }
    }
}

/// The size of a buffer of size `c` once it holds `n` bytes: unchanged if
/// they fit, else doubled until they do; where doubling would pass the
/// largest `usize`, exactly `n`.
pub open spec fn grown(c: nat, n: nat) -> nat
    decreases usize::MAX - c,
{
    if c >= n {
        c
    } else if c == 0 || c > usize::MAX / 2 {
        n
    } else {
        grown(2 * c, n)
    }
}

/// Initial size of the input buffer.
pub const BUFFER_SIZE: usize = 1_048_576;

/// What `advance` achieved.
#[derive(Debug, Clone, Copy, PartialEq, Eq, Structural)]
pub enum Advance {
    /// A new current token (or the end of the input) is available from `get`.
    Ready,
    /// The bytes at hand cannot settle the next token: supply a chunk or the end.
    NeedsChunk,
}

/// Stream of JSON tokens over a chunked byte source.
pub struct Stream<R> {
    buffer: Vec<u8>,
    start: usize,
    scanned: usize,
    end: usize,
    decoder: JsonDecoder,
    curr_token: Option<JsonToken>,
    seen_eof: bool,
    /// The byte source the owner pulls chunks from.
    pub source: R,
}

impl<R> Stream<R> {
    /// Bytes received and not yet tokenized.
    pub closed spec fn pending(&self) -> Seq<u8> {
        self.buffer@.subrange(self.start as int, self.end as int)
    }

    /// The nesting stack of the tokenizer.
    pub closed spec fn frames(&self) -> Seq<Context> {
        self.decoder.frames()
    }

    /// The category of the token read last.
    pub closed spec fn last_token(&self) -> TokenType {
        self.decoder.last_token()
    }

    /// The byte source.
    pub closed spec fn origin(&self) -> R {
        self.source
    }

    /// Whether the source has reported its end.
    pub closed spec fn ended(&self) -> bool {
        self.seen_eof
    }

    /// The current token; `None` before the first token and after the end.
    pub closed spec fn current(&self) -> Option<JsonToken> {
        self.curr_token
    }

    /// Whether every pending byte has been examined without settling a
    /// token, so that only a new chunk (or the end) lets the stream go on.
    pub closed spec fn awaiting(&self) -> bool {
        self.scanned >= self.end && !self.seen_eof
    }

    /// The size of the buffer.
    pub closed spec fn capacity(&self) -> nat {
        self.buffer@.len()
    }

    pub closed spec fn wf(&self) -> bool {
        &&& self.start <= self.scanned <= self.end <= self.buffer@.len()
        &&& self.buffer@.len() > 0
    }

    /// Create a Stream over a byte source.
    pub fn from_stream(src: R) -> (r: Result<Stream<R>, Error>)
        ensures
            r matches Ok(s) && s.wf() && s.pending() == Seq::<u8>::empty() && s.frames() == Seq::<Context>::empty()
                && s.last_token() == TokenType::Value && !s.ended() && s.current() is None && s.awaiting()
                && s.capacity() == BUFFER_SIZE && s.origin() == src,
    {
        Self::from_stream_with_initial_capacity(src, BUFFER_SIZE)
    }

    /// Create a Stream over a byte source, with specified initial capacity
    /// (at least one byte).
    pub fn from_stream_with_initial_capacity(src: R, cap: usize) -> (r: Result<Stream<R>, Error>)
        ensures
            r matches Ok(s) && s.wf() && s.pending() == Seq::<u8>::empty() && s.frames() == Seq::<Context>::empty()
                && s.last_token() == TokenType::Value && !s.ended() && s.current() is None && s.awaiting()
                && s.capacity() == (if cap == 0 { 1 } else { cap }) && s.origin() == src,
    {
        let size = if cap == 0 { 1 } else { cap };
        let buffer: Vec<u8> = vec![0u8; size];
        let s = Stream {
            buffer,
            start: 0,
            scanned: 0,
            end: 0,
            decoder: JsonDecoder::new(),
            curr_token: None,
            seen_eof: false,
            source: src,
        };
        assert(s.pending() =~= Seq::<u8>::empty());
        Ok(s)
    }

    /// Get the current token, or None if the stream is exhausted.
    pub fn get(&self) -> (r: &Option<JsonToken>)
        ensures
            *r == self.current(),
    {
        &self.curr_token
    }

    /// The number of bytes received and not yet tokenized.
    pub fn pending_len(&self) -> (r: usize)
        requires
            self.wf(),
        ensures
            r == self.pending().len(),
    {
        self.end - self.start
    }

    /// The size of the buffer.
    pub fn buffer_capacity(&self) -> (r: usize)
        ensures
            r == self.capacity(),
    {
        self.buffer.len()
    }

    /// Whether the stream waits for a chunk.
    pub fn needs_chunk(&self) -> (r: bool)
        ensures
            r == self.awaiting(),
    {
        self.scanned >= self.end && !self.seen_eof
    }

    /// Tries to read the next token from the pending bytes. When they cannot
    /// settle it, the stream marks them as examined and asks for a chunk; the
    /// pending bytes and the tokenizer are then unchanged. A decoding error is
    /// fatal. At the end of the source, a token cut short is an error.
    pub fn advance(&mut self) -> (r: Result<Advance, Error>)
        requires
            old(self).wf(),
        ensures
            final(self).wf(),
            final(self).ended() == old(self).ended(),
            final(self).origin() == old(self).origin(),
            old(self).awaiting() ==> (r matches Ok(Advance::NeedsChunk) && *final(self) == *old(self)),
            !old(self).awaiting() ==> match decode_outcome(old(self).frames(), old(self).last_token(),
                old(self).pending(), old(self).ended()) {
                Step::Emit(lex, e, st, p) => r matches Ok(Advance::Ready) && final(self).current() matches Some(t)
                    && token_is(t, lex, old(self).pending())
                    && final(self).pending() == old(self).pending().subrange(e, old(self).pending().len() as int)
                    && final(self).frames() == st && final(self).last_token() == p,
                Step::End(n) => r matches Ok(Advance::Ready) && final(self).current() is None
                    && final(self).pending() == old(self).pending().subrange(n, old(self).pending().len() as int)
                    && final(self).frames() == old(self).frames() && final(self).last_token() == old(self).last_token(),
                Step::More => r matches Ok(Advance::NeedsChunk) && final(self).awaiting()
                    && final(self).pending() == old(self).pending() && final(self).frames() == old(self).frames()
                    && final(self).last_token() == old(self).last_token() && final(self).current() == old(self).current(),
                Step::Bad(x) => r matches Err(Error::DecodeError(y)) && x == y,
            },
    {
        if self.scanned >= self.end && !self.seen_eof {
            return Ok(Advance::NeedsChunk);
        }
        let in_len = self.end - self.start;
        let window = &self.buffer[self.start..self.end];
        let mut bytes = if self.seen_eof {
            ConsumableBytes::new_end_of_stream(window)
        } else {
            ConsumableBytes::new(window)
        };
        let r = self.decoder.decode(&mut bytes);
        proof {
            crate::decode::lemma_outcome_not_needs_more(old(self).frames(), old(self).last_token(),
                old(self).pending(), old(self).ended());
        }
        match r {
            Err(DecodeError::NeedsMore) => {
                self.scanned = self.end;
                Ok(Advance::NeedsChunk)
            },
            Err(x) => Err(Error::DecodeError(x)),
            Ok(t) => {
                let consumed = in_len - bytes.len();
                let ghost old_pending = self.buffer@.subrange(self.start as int, self.end as int);
                self.start = self.start + consumed;
                if self.scanned < self.start {
                    self.scanned = self.start;
                }
                assert(self.buffer@.subrange(self.start as int, self.end as int) =~= old_pending.subrange(
                    consumed as int, old_pending.len() as int));
                self.curr_token = t;
                Ok(Advance::Ready)
            },
        }
    }

    /// Reports that the source has no more chunks.
    pub fn supply_end(&mut self)
        requires
            old(self).wf(),
        ensures
            final(self).wf(),
            final(self).ended(),
            final(self).pending() == old(self).pending(),
            final(self).frames() == old(self).frames(),
            final(self).last_token() == old(self).last_token(),
            final(self).current() == old(self).current(),
            final(self).origin() == old(self).origin(),
    {
        self.seen_eof = true;
    }

    /// Appends a chunk from the source to the pending bytes. Examined bytes
    /// are first moved to the front of the buffer; if the chunk still does
    /// not fit, the buffer doubles until it does.
    pub fn supply_chunk(&mut self, chunk: &[u8])
        requires
            old(self).wf(),
            old(self).awaiting(),
            old(self).pending().len() + chunk@.len() <= usize::MAX,
        ensures
            final(self).wf(),
            final(self).pending() == old(self).pending() + chunk@,
            final(self).ended() == old(self).ended(),
            final(self).frames() == old(self).frames(),
            final(self).last_token() == old(self).last_token(),
            final(self).current() == old(self).current(),
            final(self).origin() == old(self).origin(),
            chunk@.len() > 0 ==> !final(self).awaiting(),
            chunk@.len() == 0 ==> final(self).awaiting(),
            final(self).capacity() == grown(old(self).capacity(), old(self).pending().len() + chunk@.len()),
    {
        let ghost old_pending = self.pending();
        if self.start > 0 {
            let start = self.start;
            let to_move = self.end - start;
            let n = self.buffer.len();
            let mut k: usize = 0;
            while k < to_move
                invariant
                    start > 0,
                    to_move == old_pending.len(),
                    k <= to_move,
                    start + to_move <= self.buffer@.len(),
                    n == self.buffer@.len(),
                    self.decoder == old(self).decoder,
                    self.curr_token == old(self).curr_token,
                    self.seen_eof == old(self).seen_eof,
                    self.source == old(self).source,
                    forall|p: int| 0 <= p < k ==> #[trigger] self.buffer@[p] == old_pending[p],
                    forall|p: int| k <= p < self.buffer@.len() ==> #[trigger] self.buffer@[p]
                        == old(self).buffer@[p],
                    old_pending == old(self).buffer@.subrange(start as int, start + to_move),
                    self.buffer@.len() == old(self).buffer@.len(),
                decreases to_move - k,
            {
                let byte = self.buffer[start + k];
                self.buffer[k] = byte;
                k = k + 1;
            }
            self.end = to_move;
            self.scanned = to_move;
            self.start = 0;
            assert(self.pending() =~= old_pending);
        } else {
            self.scanned = self.end;
        }
        let needed = self.end + chunk.len();
        let mut cap = self.buffer.len();
        assert(needed == old_pending.len() + chunk@.len());
        while cap < needed
            invariant
                cap > 0,
                grown(cap as nat, needed as nat) == grown(old(self).buffer@.len(), needed as nat),
            decreases usize::MAX - cap,
        {
            cap = if cap <= usize::MAX / 2 { cap * 2 } else { needed };
        }
        if cap > self.buffer.len() {
            self.buffer.resize(cap, 0u8);
        }
        assert(self.buffer@.len() == grown(old(self).buffer@.len(), needed as nat));
        assert(self.pending() =~= old_pending);
        let end = self.end;
        let n = self.buffer.len();
        let mut k: usize = 0;
        while k < chunk.len()
            invariant
                n == self.buffer@.len(),
                self.decoder == old(self).decoder,
                self.curr_token == old(self).curr_token,
                self.seen_eof == old(self).seen_eof,
                self.source == old(self).source,
                self.scanned == end,
                end + chunk@.len() <= self.buffer@.len(),
                k <= chunk@.len(),
                self.start == 0,
                self.end == end,
                old_pending.len() == end,
                forall|p: int| 0 <= p < end ==> #[trigger] self.buffer@[p] == old_pending[p],
                forall|p: int| 0 <= p < k ==> #[trigger] self.buffer@[end + p] == chunk@[p],
            decreases chunk@.len() - k,
        {
            self.buffer[end + k] = chunk[k];
            k = k + 1;
        }
        self.end = end + chunk.len();
        assert forall|p: int| 0 <= p < end + chunk@.len() implies #[trigger] self.buffer@[p] == (old_pending
            + chunk@)[p] by {
            if p >= end {
                assert(self.buffer@[end + (p - end)] == chunk@[p - end]);
            }
        }
        assert(self.pending() =~= old_pending + chunk@);
    }
}

} // verus!
