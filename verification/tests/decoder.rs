use slip_codec::BufferError;
use slip_codec::DecoderBuffer;
use slip_codec::Error;
use slip_codec::END;
use slip_codec::ESC;

#[test]
fn test_decoder_buffer() {
    let mut buf = DecoderBuffer::<32>::new();
    assert_eq!(buf.slice(), &[]);

    let r = buf.feed(&[0x01, 0x02, 0x03]);
    assert_eq!(r.is_err(), true);

    let (processed, found) = buf.feed(&[END, 0x01, 0x02, 0x03]).unwrap();
    assert_eq!(processed, 4);
    assert_eq!(found, false);

    let (processed, found) = buf.feed(&[0x01, END]).unwrap();
    assert_eq!(processed, 2);
    assert_eq!(found, true);

    assert_eq!(buf.slice(), &[0x01, 0x02, 0x03, 0x01]);
}

#[test]
fn test_decoder_buffer_without_header() {
    let mut buf = DecoderBuffer::<32>::new().do_not_search_header();
    assert_eq!(buf.slice(), &[]);

    let (processed, found) = buf.feed(&[0x01, 0x02, 0x03]).unwrap();
    assert_eq!(processed, 3);
    assert_eq!(found, false);

    let (processed, found) = buf.feed(&[0x01, 0x02, 0x03]).unwrap();
    assert_eq!(processed, 3);
    assert_eq!(found, false);

    let (processed, found) = buf.feed(&[0x01, END]).unwrap();
    assert_eq!(processed, 2);
    assert_eq!(found, true);

    assert_eq!(buf.slice(), &[0x01, 0x02, 0x03, 0x01, 0x02, 0x03, 0x01]);
    buf.reset();
    assert_eq!(buf.slice(), &[]);
}

#[test]
fn test_decoder_bad_header_consumes_nothing() {
    // With header search enabled, a first feed whose first byte is not
    // the terminator fails with BadHeaderDecode at offset 0.
    let mut buf = DecoderBuffer::<32>::new();
    let r = buf.feed(&[0x01, 0x02]);
    assert_eq!(r, Err(BufferError { pos: 0, code: Error::BadHeaderDecode }));
    assert_eq!(buf.slice(), &[]);
    // Nothing was consumed: the same session still accepts a good header.
    let (processed, found) = buf.feed(&[END, 0x05, END]).unwrap();
    assert_eq!(processed, 3);
    assert_eq!(found, true);
    assert_eq!(buf.slice(), &[0x05]);
}

#[test]
fn test_decoder_empty_first_feed_is_bad_header() {
    let mut buf = DecoderBuffer::<32>::new();
    let r = buf.feed(&[]);
    assert_eq!(r, Err(BufferError { pos: 0, code: Error::BadHeaderDecode }));
}

#[test]
fn test_decoder_unstuffs_escape_sequences() {
    let mut buf = DecoderBuffer::<32>::new().do_not_search_header();
    let (processed, found) = buf.feed(&[0xDB, 0xDC, 0xDB, 0xDD, END]).unwrap();
    assert_eq!(processed, 5);
    assert_eq!(found, true);
    assert_eq!(buf.slice(), &[0xC0, 0xDB]);
}

#[test]
fn test_decoder_bad_escape_sequence() {
    let mut buf = DecoderBuffer::<32>::new().do_not_search_header();
    let r = buf.feed(&[0x01, ESC, 0x02]);
    assert_eq!(r, Err(BufferError { pos: 3, code: Error::BadEscapeSequenceDecode }));
    assert_eq!(buf.slice(), &[0x01]);
}

#[test]
fn test_decoder_buffer_full() {
    let mut buf = DecoderBuffer::<2>::new().do_not_search_header();
    let r = buf.feed(&[0x01, 0x02, 0x03, END]);
    assert_eq!(r, Err(BufferError { pos: 3, code: Error::BufferFull }));
    assert_eq!(buf.slice(), &[0x01, 0x02]);
}

#[test]
fn test_decoder_reset_idempotent() {
    let mut buf = DecoderBuffer::<32>::new();
    buf.feed(&[END, 0x01]).unwrap();
    buf.reset();
    assert_eq!(buf.slice(), &[]);
    buf.reset();
    assert_eq!(buf.slice(), &[]);
    // A fresh session wants its header again.
    let r = buf.feed(&[0x01]);
    assert_eq!(r, Err(BufferError { pos: 0, code: Error::BadHeaderDecode }));
}

#[test]
fn test_decoder_chunk_boundary_equivalence() {
    // Feeding one whole input equals feeding it split at any point, even
    // between an escape introducer and its designator.
    let input: &[u8] = &[END, 0x01, ESC, 0xDC, 0x02, ESC, 0xDD, 0x03, END];
    let mut whole = DecoderBuffer::<32>::new();
    let (processed, found) = whole.feed(input).unwrap();
    assert_eq!(processed, input.len());
    assert_eq!(found, true);

    for split in 0..input.len() {
        let mut parts = DecoderBuffer::<32>::new();
        let (a, b) = input.split_at(split);
        let mut done = false;
        let mut total = 0;
        // An empty first chunk would fail the header check, so skip it;
        // the second chunk is then the whole input.
        if !a.is_empty() {
            let (n, f) = parts.feed(a).unwrap();
            total += n;
            done = f;
        }
        if !done {
            let (n, f) = parts.feed(b).unwrap();
            total += n;
            done = f;
        }
        assert_eq!(done, true);
        assert_eq!(total, input.len());
        assert_eq!(parts.slice(), whole.slice());
    }
}

#[test]
fn test_decoder_state_persists_after_complete_until_reset() {
    // A completed packet stays in the buffer until reset; a further feed
    // appends to it, since the buffer is no longer empty.
    let mut buf = DecoderBuffer::<32>::new();
    let (_, found) = buf.feed(&[END, 0x01, END]).unwrap();
    assert_eq!(found, true);
    assert_eq!(buf.slice(), &[0x01]);
    let (processed, found) = buf.feed(&[0x02]).unwrap();
    assert_eq!(processed, 1);
    assert_eq!(found, false);
    assert_eq!(buf.slice(), &[0x01, 0x02]);
    buf.reset();
    assert_eq!(buf.slice(), &[]);
}

#[test]
fn test_decoder_packet_spans_calls_mid_escape() {
    let mut buf = DecoderBuffer::<32>::new().do_not_search_header();
    let (processed, found) = buf.feed(&[0x01, ESC]).unwrap();
    assert_eq!(processed, 2);
    assert_eq!(found, false);
    let (processed, found) = buf.feed(&[0xDC, END]).unwrap();
    assert_eq!(processed, 2);
    assert_eq!(found, true);
    assert_eq!(buf.slice(), &[0x01, 0xC0]);
}
