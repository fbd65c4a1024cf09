//! Incremental decoder: reconstructs one unescaped packet from a raw,
//! arbitrarily chunked, framed byte stream.

use vstd::prelude::*;

use crate::buffer_basic::BasicBuffer;
use crate::buffer_encoder::encode_feed;
use crate::buffer_encoder::lemma_encode_feed_complete;
use crate::buffer_encoder::stuff_byte;
use crate::buffer_encoder::stuff_bytes;
use crate::buffer_encoder::EncodeResult;
use crate::error::BufferError;
use crate::error::BufferResult;
use crate::error::Error;
use crate::END;
use crate::ESC;
use crate::ESC_END;
use crate::ESC_ESC;

verus! {

/// What one decoding pass over an input chunk yields.
///
/// Offsets count consumed bytes of the chunk the pass was given, starting
/// at 1 for its first byte.
/// - `More`: the chunk was consumed entirely without meeting a terminator;
///   `contents` and `escaping` are the state carried to the next call.
/// - `Complete`: a terminator was met after `consumed` bytes; `contents`
///   is the finished packet.
/// - `Fail`: the byte at offset `pos` triggered the error `code`; it was
///   consumed, the escaping flag is clear, and the buffer holds `contents`.
pub ghost enum FeedResult {
    More { contents: Seq<u8>, escaping: bool },
    Complete { consumed: int, contents: Seq<u8> },
    Fail { pos: int, code: Error, contents: Seq<u8> },
}

/// Shift the offset of a `FeedResult` by `k` consumed bytes.
pub open spec fn feed_delay(r: FeedResult, k: int) -> FeedResult {
    match r {
        FeedResult::More { contents, escaping } => FeedResult::More { contents, escaping },
        FeedResult::Complete { consumed, contents } => FeedResult::Complete {
            consumed: consumed + k,
            contents,
        },
        FeedResult::Fail { pos, code, contents } => FeedResult::Fail { pos: pos + k, code, contents },
    }
}

/// One decoding pass: starting from buffer contents `contents`, with the
/// escaping flag as given and room for `cap` bytes in all, consume `input`
/// byte by byte, reversing the byte-stuffing, until a terminator, an
/// error, or the end of the chunk.
pub open spec fn decode_feed(contents: Seq<u8>, escaping: bool, input: Seq<u8>, cap: nat) -> FeedResult
    decreases input.len(),
{
    if input.len() == 0 {
        FeedResult::More { contents, escaping }
    } else {
        let b = input[0];
        let rest = input.drop_first();
        if escaping {
            if b == ESC_END {
                if contents.len() < cap {
                    feed_delay(decode_feed(contents.push(END), false, rest, cap), 1)
                } else {
                    FeedResult::Fail { pos: 1, code: Error::BufferFull, contents }
                }
            } else if b == ESC_ESC {
                if contents.len() < cap {
                    feed_delay(decode_feed(contents.push(ESC), false, rest, cap), 1)
                } else {
                    FeedResult::Fail { pos: 1, code: Error::BufferFull, contents }
                }
            } else {
                FeedResult::Fail { pos: 1, code: Error::BadEscapeSequenceDecode, contents }
            }
        } else {
            if b == END {
                FeedResult::Complete { consumed: 1, contents }
            } else if b == ESC {
                feed_delay(decode_feed(contents, true, rest, cap), 1)
            } else {
                if contents.len() < cap {
                    feed_delay(decode_feed(contents.push(b), false, rest, cap), 1)
                } else {
                    FeedResult::Fail { pos: 1, code: Error::BufferFull, contents }
                }
            }
        }
    }
}

proof fn lemma_feed_delay_zero(r: FeedResult)
    ensures
        feed_delay(r, 0) == r,
{
}

proof fn lemma_feed_delay_delay(r: FeedResult, a: int, b: int)
    ensures
        feed_delay(feed_delay(r, a), b) == feed_delay(r, a + b),
{
}

proof fn lemma_feed_delay_delay_all(a: int, b: int)
    ensures
        forall|r: FeedResult| #[trigger] feed_delay(feed_delay(r, a), b) == feed_delay(r, a + b),
{
}

/// Decoding undoes the byte-stuffing: a pass over the stuffed form of a
/// payload `p`, followed by any `tail`, appends exactly `p` to the buffer,
/// consumes the whole stuffed form without completing or failing, and then
/// continues on `tail` as if `p` had been fed unstuffed.
pub proof fn lemma_stuffing_reversible(contents: Seq<u8>, p: Seq<u8>, tail: Seq<u8>, cap: nat)
    requires
        contents.len() + p.len() <= cap,
    ensures
        decode_feed(contents, false, stuff_bytes(p) + tail, cap) == feed_delay(
            decode_feed(contents + p, false, tail, cap),
            stuff_bytes(p).len() as int,
        ),
    decreases p.len(),
{
    if p.len() == 0 {
        assert(stuff_bytes(p) + tail =~= tail);
        assert(contents + p =~= contents);
        lemma_feed_delay_zero(decode_feed(contents, false, tail, cap));
    } else {
        reveal_with_fuel(decode_feed, 3);
        let b = p[0];
        let p1 = p.drop_first();
        let enc = stuff_byte(b);
        assert(stuff_bytes(p) == enc + stuff_bytes(p1));
        let s = stuff_bytes(p) + tail;
        let s1 = stuff_bytes(p1) + tail;
        lemma_stuffing_reversible(contents.push(b), p1, tail, cap);
        assert(contents.push(b) + p1 =~= contents + p);
        let r0 = decode_feed(contents + p, false, tail, cap);
        let n = stuff_bytes(p1).len() as int;
        lemma_feed_delay_delay(r0, n, 1);
        if b == END || b == ESC {
            let esc_code: u8 = if b == END {
                ESC_END
            } else {
                ESC_ESC
            };
            assert(s[0] == ESC);
            assert(s.drop_first() =~= seq![esc_code] + s1);
            assert((seq![esc_code] + s1)[0] == esc_code);
            assert((seq![esc_code] + s1).drop_first() =~= s1);
            lemma_feed_delay_delay(r0, n + 1, 1);
        } else {
            assert(s[0] == b);
            assert(s.drop_first() =~= s1);
        }
    }
}

/// Round trip: the wire form of any payload `p` — leading header, stuffed
/// payload, terminator — decodes, in a fresh session with enough room,
/// back to exactly `p`: the header byte passes the header check, and the
/// pass over the rest consumes every byte and completes the packet with
/// the buffer holding `p`.
pub proof fn lemma_round_trip(p: Seq<u8>, cap: nat)
    requires
        p.len() + 2 <= cap,
    ensures
        ({
            let wire = seq![END] + stuff_bytes(p) + seq![END];
            &&& wire.len() > 0 && wire[0] == END
            &&& decode_feed(Seq::<u8>::empty(), false, wire.skip(1), cap) == (FeedResult::Complete {
                consumed: wire.len() - 1,
                contents: p,
            })
        }),
{
    let wire = seq![END] + stuff_bytes(p) + seq![END];
    assert(wire.skip(1) =~= stuff_bytes(p) + seq![END]);
    lemma_stuffing_reversible(Seq::<u8>::empty(), p, seq![END], cap);
    assert(Seq::<u8>::empty() + p =~= p);
    assert(seq![END][0] == END);
}

/// Round trip across both machines: a fresh encoder with the header
/// enabled turns payload `p` into `END`, the stuffed payload, and — on
/// `finish` — a trailing `END`; a fresh decoder with header search
/// enabled consumes that wire frame entirely and reconstructs exactly
/// `p`, provided each side's buffer has room.
pub proof fn lemma_encode_decode_round_trip(p: Seq<u8>, enc_cap: nat, dec_cap: nat)
    requires
        2 + stuff_bytes(p).len() <= enc_cap,
        p.len() + 2 <= dec_cap,
    ensures
        encode_feed(seq![END], p, enc_cap) == (EncodeResult::Done {
            contents: seq![END] + stuff_bytes(p),
        }),
        ({
            let wire = (seq![END] + stuff_bytes(p)).push(END);
            &&& wire.len() > 0 && wire[0] == END
            &&& decode_feed(Seq::<u8>::empty(), false, wire.skip(1), dec_cap)
                == (FeedResult::Complete { consumed: wire.len() - 1, contents: p })
        }),
{
    lemma_encode_feed_complete(seq![END], p, enc_cap);
    let wire = (seq![END] + stuff_bytes(p)).push(END);
    assert(wire =~= seq![END] + stuff_bytes(p) + seq![END]);
    lemma_round_trip(p, dec_cap);
    assert(wire.skip(1) =~= (seq![END] + stuff_bytes(p) + seq![END]).skip(1));
}

/// Chunk-boundary equivalence: one decoding pass over `a + b` behaves
/// exactly as a pass over `a` followed, when `a` is consumed entirely
/// without completion, by a pass over `b` from the carried state — the
/// same buffer contents, completion and error, with offsets counted from
/// the start of `a`. A split may fall anywhere, including between an
/// escape introducer and its designator.
pub proof fn lemma_chunk_boundary(contents: Seq<u8>, escaping: bool, a: Seq<u8>, b: Seq<u8>, cap: nat)
    ensures
        ({
            let whole = decode_feed(contents, escaping, a + b, cap);
            match decode_feed(contents, escaping, a, cap) {
                FeedResult::More { contents: c1, escaping: e1 } => whole == feed_delay(
                    decode_feed(c1, e1, b, cap),
                    a.len() as int,
                ),
                FeedResult::Complete { consumed, contents: c1 } => whole == (FeedResult::Complete {
                    consumed,
                    contents: c1,
                }),
                FeedResult::Fail { pos, code, contents: c1 } => whole == (FeedResult::Fail {
                    pos,
                    code,
                    contents: c1,
                }),
            }
        }),
    decreases a.len(),
{
    if a.len() == 0 {
        assert(a + b =~= b);
        lemma_feed_delay_zero(decode_feed(contents, escaping, b, cap));
    } else {
        let c = a[0];
        let a1 = a.drop_first();
        assert((a + b)[0] == a[0]);
        assert((a + b).drop_first() =~= a1 + b);
        lemma_feed_delay_delay_all(a1.len() as int, 1);
        if escaping {
            if c == ESC_END && contents.len() < cap {
                lemma_chunk_boundary(contents.push(END), false, a1, b, cap);
            } else if c == ESC_ESC && contents.len() < cap {
                lemma_chunk_boundary(contents.push(ESC), false, a1, b, cap);
            }
        } else {
            if c == ESC {
                lemma_chunk_boundary(contents, true, a1, b, cap);
            } else if c != END && contents.len() < cap {
                lemma_chunk_boundary(contents.push(c), false, a1, b, cap);
            }
        }
    }
}

/// The decoder's state, seen abstractly: the packet bytes reconstructed so
/// far, whether the last consumed byte opened an escape sequence, whether
/// the leading header of the session was already consumed, and whether the
/// configuration asks for one.
pub ghost struct DecoderModel {
    pub contents: Seq<u8>,
    pub escaping: bool,
    pub header_found: bool,
    pub search_for_header: bool,
}

/// True when the next `feed` call must begin by consuming a header byte.
pub open spec fn wants_header(m: DecoderModel) -> bool {
    m.contents.len() == 0 && m.search_for_header && !m.header_found
}

/// A fresh-session decoder state derived from `m`: same configuration,
/// empty buffer, flags cleared.
pub open spec fn decoder_reset(m: DecoderModel) -> DecoderModel {
    DecoderModel {
        contents: Seq::<u8>::empty(),
        escaping: false,
        header_found: false,
        search_for_header: m.search_for_header,
    }
}

/// Resetting a decoder is idempotent, always leaves an empty buffer, and
/// keeps the header configuration.
pub proof fn lemma_decoder_reset_idempotent(m: DecoderModel)
    ensures
        decoder_reset(decoder_reset(m)) == decoder_reset(m),
        decoder_reset(m).contents == Seq::<u8>::empty(),
        decoder_reset(m).search_for_header == m.search_for_header,
{
}

/// Consumes raw framed bytes and reconstructs exactly one unescaped packet
/// at a time into a fixed-capacity buffer, reporting packet completion.
pub struct DecoderBuffer<const CAPACITY: usize> {
    buf: BasicBuffer<CAPACITY>,
    is_escaping: bool,
    header_found: bool,
    search_for_header: bool,
}

impl<const CAPACITY: usize> View for DecoderBuffer<CAPACITY> {
    type V = DecoderModel;

    closed spec fn view(&self) -> DecoderModel {
        DecoderModel {
            contents: self.buf@,
            escaping: self.is_escaping,
            header_found: self.header_found,
            search_for_header: self.search_for_header,
        }
    }
}

impl<const CAPACITY: usize> DecoderBuffer<CAPACITY> {
    /// A fresh decoder: empty buffer, header search enabled.
    pub fn new() -> (r: Self)
        ensures
            r@ == (DecoderModel {
                contents: Seq::<u8>::empty(),
                escaping: false,
                header_found: false,
                search_for_header: true,
            }),
    {
        DecoderBuffer {
            buf: BasicBuffer::new(),
            is_escaping: false,
            header_found: false,
            search_for_header: true,
        }
    }

    /// Start a fresh session: the buffer becomes empty and the flags are
    /// cleared; the configuration persists.
    pub fn reset(&mut self)
        ensures
            final(self)@ == decoder_reset(old(self)@),
    {
        self.is_escaping = false;
        self.header_found = false;
        self.buf.reset();
    }

    /// The packet bytes reconstructed so far, in order.
    pub fn slice(&self) -> (r: &[u8])
        ensures
            r@ == self@.contents,
    {
        self.buf.slice()
    }

    /// Consume raw bytes, reversing the byte-stuffing into the buffer.
    ///
    /// On the first call of a session with header search enabled, the
    /// first byte of `input` must be the terminator; otherwise the call
    /// fails with `BadHeaderDecode` at offset 0 and consumes nothing.
    /// Decoding then proceeds byte by byte until a terminator completes
    /// the packet, an error occurs, or the chunk ends; the return value
    /// reports how many input bytes were consumed and whether the packet
    /// is complete. All state persists across calls, so a packet may span
    /// any number of chunks.
    pub fn feed(&mut self, input: &[u8]) -> (r: BufferResult<(usize, bool)>)
        ensures
            final(self)@.search_for_header == old(self)@.search_for_header,
            ({
                let m = old(self)@;
                let cap = CAPACITY as nat;
                if wants_header(m) && !(input@.len() > 0 && input@[0] == END) {
                    &&& r == Err::<(usize, bool), BufferError>(
                        (BufferError { pos: 0, code: Error::BadHeaderDecode }),
                    )
                    &&& final(self)@ == m
                } else {
                    let start: int = if wants_header(m) {
                        1
                    } else {
                        0
                    };
                    &&& final(self)@.header_found == (m.header_found || wants_header(m))
                    &&& match decode_feed(m.contents, m.escaping, input@.skip(start), cap) {
                        FeedResult::More { contents, escaping } => {
                            &&& r == Ok::<(usize, bool), BufferError>(
                                (input@.len() as usize, false),
                            )
                            &&& final(self)@.contents == contents
                            &&& final(self)@.escaping == escaping
                        },
                        FeedResult::Complete { consumed, contents } => {
                            &&& r == Ok::<(usize, bool), BufferError>(
                                ((start + consumed) as usize, true),
                            )
                            &&& final(self)@.contents == contents
                            &&& final(self)@.escaping == false
                        },
                        FeedResult::Fail { pos, code, contents } => {
                            &&& r == Err::<(usize, bool), BufferError>(
                                (BufferError { pos: (start + pos) as usize, code }),
                            )
                            &&& final(self)@.contents == contents
                            &&& final(self)@.escaping == false
                        },
                    }
                }
            }),
    {
        let ghost orig = self@;
        let ghost cap = CAPACITY as nat;
        let mut i: usize = 0;

        // A session's leading header is owed only while the buffer is
        // still empty and none was consumed yet.
        if self.buf.is_first_byte() {
            if self.search_for_header {
                if !self.header_found {
                    if input.len() < 1 {
                        return Err(BufferError { pos: 0, code: Error::BadHeaderDecode });
                    }
                    if input[0] != END {
                        return Err(BufferError { pos: 0, code: Error::BadHeaderDecode });
                    }
                    i += 1;
                    self.header_found = true;
                }
            }
        }

        let ghost start = i as int;
        proof {
            if start == 0 {
                assert(input@.skip(0) =~= input@);
            }
            lemma_feed_delay_zero(decode_feed(orig.contents, orig.escaping, input@.skip(start), cap));
        }

        #[verifier::loop_isolation(false)]
        while i < input.len()
            invariant
                start <= i as int <= input@.len(),
                self@.search_for_header == orig.search_for_header,
                self@.header_found == (orig.header_found || wants_header(orig)),
                decode_feed(orig.contents, orig.escaping, input@.skip(start), cap) == feed_delay(
                    decode_feed(self@.contents, self@.escaping, input@.skip(i as int), cap),
                    i as int - start,
                ),
            decreases input@.len() - i as int,
        {
            let c = input[i];
            let ghost i0 = i as int;
            proof {
                assert(input@.skip(i0)[0] == input@[i0]);
                assert(input@.skip(i0).drop_first() =~= input@.skip(i0 + 1));
            }
            i += 1;

            if self.is_escaping {
                self.is_escaping = false;
                if c == ESC_END {
                    match self.buf.put(END) {
                        Ok(_) => {},
                        Err(code) => {
                            return Err(BufferError { pos: i, code });
                        },
                    }
                } else if c == ESC_ESC {
                    match self.buf.put(ESC) {
                        Ok(_) => {},
                        Err(code) => {
                            return Err(BufferError { pos: i, code });
                        },
                    }
                } else {
                    return Err(BufferError { pos: i, code: Error::BadEscapeSequenceDecode });
                }
            } else {
                if c == END {
                    return Ok((i, true));
                } else if c == ESC {
                    self.is_escaping = true;
                } else {
                    match self.buf.put(c) {
                        Ok(_) => {},
                        Err(code) => {
                            return Err(BufferError { pos: i, code });
                        },
                    }
                }
            }
            proof {
                lemma_feed_delay_delay(
                    decode_feed(self@.contents, self@.escaping, input@.skip(i as int), cap),
                    1,
                    i0 - start,
                );
            }
        }
        proof {
            assert(input@.skip(i as int).len() == 0);
        }
        Ok((i, false))
    }

    /// Configure the decoder, before first use, not to expect a leading
    /// header byte.
    pub fn do_not_search_header(self) -> (r: Self)
        ensures
            r@ == (DecoderModel {
                contents: self@.contents,
                escaping: self@.escaping,
                header_found: self@.header_found,
                search_for_header: false,
            }),
    {
        let mut s = self;
        s.search_for_header = false;
        s
    }
}

} // verus!
