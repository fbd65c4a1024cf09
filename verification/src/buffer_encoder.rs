//! Incremental encoder: turns payload bytes into their escaped, framed
//! wire form inside a fixed-capacity buffer.

use vstd::prelude::*;

use crate::buffer_basic::BasicBuffer;
use crate::error::BufferError;
use crate::error::BufferResult;
use crate::error::Error;
use crate::END;
use crate::ESC;
use crate::ESC_END;
use crate::ESC_ESC;

verus! {

/// The wire bytes that stand for one payload byte: reserved bytes are
/// replaced by their two-byte escape sequence, every other byte passes
/// through unchanged.
pub open spec fn stuff_byte(b: u8) -> Seq<u8> {
    if b == END {
        seq![ESC, ESC_END]
    } else if b == ESC {
        seq![ESC, ESC_ESC]
    } else {
        seq![b]
    }
}

/// The wire bytes that stand for a whole payload, in order.
pub open spec fn stuff_bytes(s: Seq<u8>) -> Seq<u8>
    decreases s.len(),
{
    if s.len() == 0 {
        Seq::<u8>::empty()
    } else {
        stuff_byte(s[0]) + stuff_bytes(s.drop_first())
    }
}

/// What one encoding pass over an input chunk leaves behind: either every
/// input byte was stuffed into the buffer, or the buffer ran out of room
/// while writing the wire bytes of the input byte just before `pos`
/// (counting consumed input bytes from 1).
pub ghost enum EncodeResult {
    Done { contents: Seq<u8> },
    Fail { pos: int, contents: Seq<u8> },
}

/// Shift the failure offset of an `EncodeResult` by `k` input bytes.
pub open spec fn encode_delay(r: EncodeResult, k: int) -> EncodeResult {
    match r {
        EncodeResult::Done { contents } => EncodeResult::Done { contents },
        EncodeResult::Fail { pos, contents } => EncodeResult::Fail { pos: pos + k, contents },
    }
}

/// One encoding pass: starting from buffer contents `contents` with room
/// for `cap` bytes in all, stuff `input` byte by byte. On failure the
/// buffer keeps everything that fit, including a lone `ESC` when only the
/// first half of an escape sequence found room.
pub open spec fn encode_feed(contents: Seq<u8>, input: Seq<u8>, cap: nat) -> EncodeResult
    decreases input.len(),
{
    if input.len() == 0 {
        EncodeResult::Done { contents }
    } else {
        let enc = stuff_byte(input[0]);
        if contents.len() + enc.len() <= cap {
            encode_delay(encode_feed(contents + enc, input.drop_first(), cap), 1)
        } else if enc.len() == 2 && contents.len() < cap {
            EncodeResult::Fail { pos: 1, contents: contents.push(ESC) }
        } else {
            EncodeResult::Fail { pos: 1, contents }
        }
    }
}

/// An encoding pass succeeds exactly when the stuffed form of the whole
/// input fits into the remaining room, and then appends exactly that
/// stuffed form; otherwise it fails.
pub proof fn lemma_encode_feed_complete(contents: Seq<u8>, input: Seq<u8>, cap: nat)
    requires
        contents.len() <= cap,
    ensures
        contents.len() + stuff_bytes(input).len() <= cap ==> encode_feed(contents, input, cap)
            == (EncodeResult::Done { contents: contents + stuff_bytes(input) }),
        contents.len() + stuff_bytes(input).len() > cap ==> (encode_feed(contents, input, cap)
            matches EncodeResult::Fail { .. }),
    decreases input.len(),
{
    if input.len() == 0 {
        assert(contents + stuff_bytes(input) =~= contents);
    } else {
        let enc = stuff_byte(input[0]);
        let rest = input.drop_first();
        assert(stuff_bytes(input) == enc + stuff_bytes(rest));
        if contents.len() + enc.len() <= cap {
            lemma_encode_feed_complete(contents + enc, rest, cap);
            assert(contents + enc + stuff_bytes(rest) =~= contents + stuff_bytes(input));
        }
    }
}

proof fn lemma_encode_delay_zero(r: EncodeResult)
    ensures
        encode_delay(r, 0) == r,
{
}

proof fn lemma_encode_delay_delay(r: EncodeResult, a: int, b: int)
    ensures
        encode_delay(encode_delay(r, a), b) == encode_delay(r, a + b),
{
}

/// The encoder's state, seen abstractly: the wire bytes produced so far,
/// whether the leading header byte has been written, and whether the
/// configuration says to omit it.
pub ghost struct EncoderModel {
    pub contents: Seq<u8>,
    pub header_written: bool,
    pub skip_header: bool,
}

/// A fresh-session encoder state derived from `m`: same configuration,
/// empty buffer, header not yet written.
pub open spec fn encoder_reset(m: EncoderModel) -> EncoderModel {
    EncoderModel { contents: Seq::<u8>::empty(), header_written: false, skip_header: m.skip_header }
}

/// Resetting an encoder is idempotent, always leaves an empty buffer, and
/// keeps the header configuration.
pub proof fn lemma_encoder_reset_idempotent(m: EncoderModel)
    ensures
        encoder_reset(encoder_reset(m)) == encoder_reset(m),
        encoder_reset(m).contents == Seq::<u8>::empty(),
        encoder_reset(m).skip_header == m.skip_header,
{
}

/// Builds the escaped wire form of a payload delivered across one or more
/// `feed` calls, with an optional single leading header byte and, on
/// `finish`, exactly one trailing terminator.
pub struct EncoderBuffer<const CAPACITY: usize> {
    buf: BasicBuffer<CAPACITY>,
    header_written: bool,
    skip_header: bool,
}

impl<const CAPACITY: usize> View for EncoderBuffer<CAPACITY> {
    type V = EncoderModel;

    closed spec fn view(&self) -> EncoderModel {
        EncoderModel {
            contents: self.buf@,
            header_written: self.header_written,
            skip_header: self.skip_header,
        }
    }
}

impl<const CAPACITY: usize> EncoderBuffer<CAPACITY> {
    /// A fresh encoder: empty buffer, header enabled and not yet written.
    pub fn new() -> (r: Self)
        ensures
            r@ == (EncoderModel {
                contents: Seq::<u8>::empty(),
                header_written: false,
                skip_header: false,
            }),
    {
        EncoderBuffer { buf: BasicBuffer::new(), header_written: false, skip_header: false }
    }

    /// Start a fresh session: the buffer becomes empty and the header, if
    /// configured, will be written again; the configuration persists.
    pub fn reset(&mut self) -> (r: BufferResult<()>)
        ensures
            r == Ok::<(), BufferError>(()),
            final(self)@ == encoder_reset(old(self)@),
    {
        self.buf.reset();
        self.header_written = false;
        Ok(())
    }

    /// The wire bytes produced so far, in order.
    pub fn slice(&self) -> (r: &[u8])
        ensures
            r@ == self@.contents,
    {
        self.buf.slice()
    }

    /// Consume payload bytes, appending their escaped wire form; writes the
    /// header first on the first call of a session when configured. Returns
    /// the count of input bytes consumed, or the offset at which the buffer
    /// ran out of room; wire bytes already written stay in the buffer.
    pub fn feed(&mut self, input: &[u8]) -> (r: BufferResult<usize>)
        ensures
            final(self)@.skip_header == old(self)@.skip_header,
            ({
                let m = old(self)@;
                let cap = CAPACITY as nat;
                let hdr = !m.skip_header && !m.header_written;
                if hdr && m.contents.len() >= cap {
                    &&& r == Err::<usize, BufferError>(
                        (BufferError { pos: 0, code: Error::BufferFull }),
                    )
                    &&& final(self)@ == m
                } else {
                    let c0 = if hdr {
                        m.contents.push(END)
                    } else {
                        m.contents
                    };
                    &&& final(self)@.header_written == (m.header_written || !m.skip_header)
                    &&& match encode_feed(c0, input@, cap) {
                        EncodeResult::Done { contents } => {
                            &&& r == Ok::<usize, BufferError>(input@.len() as usize)
                            &&& final(self)@.contents == contents
                        },
                        EncodeResult::Fail { pos, contents } => {
                            &&& r == Err::<usize, BufferError>(
                                (BufferError { pos: pos as usize, code: Error::BufferFull }),
                            )
                            &&& final(self)@.contents == contents
                        },
                    }
                }
            }),
    {
        let ghost orig = self@;
        let ghost cap = CAPACITY as nat;
        if !self.skip_header {
            if !self.header_written {
                match self.buf.put(END) {
                    Ok(_) => {
                        self.header_written = true;
                    },
                    Err(code) => {
                        return Err(BufferError { pos: 0, code });
                    },
                }
            }
        }
        let ghost c0 = self@.contents;
        let mut i: usize = 0;
        proof {
            assert(input@.skip(0) =~= input@);
            lemma_encode_delay_zero(encode_feed(c0, input@, cap));
        }
        #[verifier::loop_isolation(false)]
        while i < input.len()
            invariant
                i as int <= input@.len(),
                self@.skip_header == orig.skip_header,
                self@.header_written == (orig.header_written || !orig.skip_header),
                encode_feed(c0, input@, cap) == encode_delay(
                    encode_feed(self@.contents, input@.skip(i as int), cap),
                    i as int,
                ),
            decreases input@.len() - i as int,
        {
            let c = input[i];
            let ghost pre = self@.contents;
            let ghost i0 = i as int;
            proof {
                assert(input@.skip(i0)[0] == input@[i0]);
                assert(input@.skip(i0).drop_first() =~= input@.skip(i0 + 1));
            }
            i += 1;
            if c == END {
                match self.buf.put(ESC) {
                    Ok(_) => {},
                    Err(code) => {
                        return Err(BufferError { pos: i, code });
                    },
                }
                match self.buf.put(ESC_END) {
                    Ok(_) => {},
                    Err(code) => {
                        return Err(BufferError { pos: i, code });
                    },
                }
                proof {
                    assert(pre.push(ESC).push(ESC_END) =~= pre + stuff_byte(c));
                }
            } else if c == ESC {
                match self.buf.put(ESC) {
                    Ok(_) => {},
                    Err(code) => {
                        return Err(BufferError { pos: i, code });
                    },
                }
                match self.buf.put(ESC_ESC) {
                    Ok(_) => {},
                    Err(code) => {
                        return Err(BufferError { pos: i, code });
                    },
                }
                proof {
                    assert(pre.push(ESC).push(ESC_ESC) =~= pre + stuff_byte(c));
                }
            } else {
                match self.buf.put(c) {
                    Ok(_) => {},
                    Err(code) => {
                        return Err(BufferError { pos: i, code });
                    },
                }
                proof {
                    assert(pre.push(c) =~= pre + stuff_byte(c));
                }
            }
            proof {
                lemma_encode_delay_delay(
                    encode_feed(self@.contents, input@.skip(i as int), cap),
                    1,
                    i0,
                );
            }
        }
        proof {
            assert(input@.skip(i as int).len() == 0);
        }
        Ok(i)
    }

    /// Close the frame: write the header first if it is still owed, then
    /// append the single trailing terminator.
    pub fn finish(&mut self) -> (r: BufferResult<()>)
        ensures
            final(self)@.skip_header == old(self)@.skip_header,
            ({
                let m = old(self)@;
                let cap = CAPACITY as nat;
                let hdr = !m.skip_header && !m.header_written;
                if hdr && m.contents.len() >= cap {
                    &&& r == Err::<(), BufferError>(
                        (BufferError { pos: 0, code: Error::BufferFull }),
                    )
                    &&& final(self)@ == m
                } else {
                    let c0 = if hdr {
                        m.contents.push(END)
                    } else {
                        m.contents
                    };
                    &&& final(self)@.header_written == (m.header_written || !m.skip_header)
                    &&& if c0.len() < cap {
                        &&& r == Ok::<(), BufferError>(())
                        &&& final(self)@.contents == c0.push(END)
                    } else {
                        &&& r == Err::<(), BufferError>(
                            (BufferError { pos: 0, code: Error::BufferFull }),
                        )
                        &&& final(self)@.contents == c0
                    }
                }
            }),
    {
        if !self.skip_header {
            if !self.header_written {
                match self.buf.put(END) {
                    Ok(_) => {
                        self.header_written = true;
                    },
                    Err(code) => {
                        return Err(BufferError { pos: 0, code });
                    },
                }
            }
        }
        match self.buf.put(END) {
            Ok(_) => Ok(()),
            Err(code) => Err(BufferError { pos: 0, code }),
        }
    }

    /// Configure the encoder, before first use, to omit the leading header
    /// byte.
    pub fn skip_header(self) -> (r: Self)
        ensures
            r@ == (EncoderModel {
                contents: self@.contents,
                header_written: self@.header_written,
                skip_header: true,
            }),
    {
        let mut s = self;
        s.skip_header = true;
        s
    }
}

} // verus!
