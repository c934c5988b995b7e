use falcompress::bzip;
use falcompress::c77;
use falcompress::sink;
use falcompress::Error;

#[test]
fn sink_backref_copies_window() {
    // floor=0, out=[A,B,C], repeat count=5 offset=2 -> [A,B,C,B,C,B,C,B]
    let mut out = vec![b'A', b'B', b'C'];
    sink::decomp_repeat(&mut out, 0, 5, 2).unwrap();
    assert_eq!(out, vec![b'A', b'B', b'C', b'B', b'C', b'B', b'C', b'B']);
}

#[test]
fn sink_backref_overlapping_run() {
    // floor=0, out=[A], repeat count=3 offset=1 -> [A,A,A,A]
    let mut out = vec![b'A'];
    sink::decomp_repeat(&mut out, 0, 3, 1).unwrap();
    assert_eq!(out, vec![b'A', b'A', b'A', b'A']);
}

#[test]
fn sink_backref_out_of_window() {
    // floor=0, out=[A,B], repeat count=1 offset=3 -> BadRepeat
    let mut out = vec![b'A', b'B'];
    let err = sink::decomp_repeat(&mut out, 0, 1, 3).unwrap_err();
    assert_eq!(
        err,
        Error::BadRepeat {
            count: 1,
            offset: 3,
            len: 2
        }
    );
    assert_eq!(out, vec![b'A', b'B']);
}

#[test]
fn sink_backref_respects_floor() {
    let mut out = vec![b'A', b'B'];
    let err = sink::decomp_repeat(&mut out, 2, 1, 1).unwrap_err();
    assert_eq!(
        err,
        Error::BadRepeat {
            count: 1,
            offset: 1,
            len: 2
        }
    );
}

#[test]
fn mode1_literal_block() {
    let mut out = Vec::new();
    bzip::decompress(&[0x02, 0x41, 0x42], &mut out).unwrap();
    assert_eq!(out, b"AB".to_vec());
}

#[test]
fn mode1_constant_run() {
    let mut out = Vec::new();
    bzip::decompress(&[0x41, 0x5A], &mut out).unwrap();
    assert_eq!(out, vec![0x5A; 5]);
}

#[test]
fn mode1_backref_and_last_offset() {
    // literal "AB", copy 4 at offset 2, then repeat 3 more at last offset
    let mut out = Vec::new();
    bzip::decompress(&[0x02, 0x41, 0x42, 0x80, 0x02, 0x63], &mut out).unwrap();
    assert_eq!(out, b"ABABABABA".to_vec());
}

#[test]
fn mode1_last_offset_starts_invalid() {
    // a family-C token before any family-D token fails the window check
    let mut out = Vec::new();
    let err = bzip::decompress(&[0x61], &mut out).unwrap_err();
    assert_eq!(
        err,
        Error::BadRepeat {
            count: 1,
            offset: 0,
            len: 0
        }
    );
}

#[test]
fn mode1_truncated_literal() {
    let mut out = Vec::new();
    let err = bzip::decompress(&[0x05, 0x41], &mut out).unwrap_err();
    assert_eq!(err, Error::Read { pos: 1 });
}

#[test]
fn mode2_end_marker_only() {
    // header word 0x0300: two 1-bits then the 13-bit zero end code
    let mut out = Vec::new();
    bzip::decompress(&[0x00, 0x03, 0x00], &mut out).unwrap();
    assert_eq!(out, Vec::<u8>::new());
}

#[test]
fn mode2_single_literal_exact_bytes() {
    let mut comp = Vec::new();
    bzip::compress(b"A", &mut comp, bzip::CompressMode::Mode2);
    assert_eq!(comp, vec![0x00, 0x06, 0x41, 0x00]);
    let mut out = Vec::new();
    bzip::decompress(&comp, &mut out).unwrap();
    assert_eq!(out, b"A".to_vec());
}

#[test]
fn mode2_truncated_header() {
    let mut out = Vec::new();
    let err = bzip::decompress(&[0x00], &mut out).unwrap_err();
    assert_eq!(err, Error::Read { pos: 0 });
}

#[test]
fn decompress_appends_after_existing_bytes() {
    let mut out = vec![0xEE, 0xFF];
    bzip::decompress(&[0x02, 0x41, 0x42], &mut out).unwrap();
    assert_eq!(out, vec![0xEE, 0xFF, 0x41, 0x42]);
}

#[test]
fn c77_mode0_verbatim() {
    let mut out = Vec::new();
    c77::decompress_inner(&[0x00, 0x00, 0x00, 0x00, 0x48, 0x49], &mut out).unwrap();
    assert_eq!(out, vec![0x48, 0x49]);
}

#[test]
fn c77_sized_chunk() {
    let mut data = Vec::new();
    data.extend_from_slice(&6u32.to_le_bytes());
    data.extend_from_slice(&2u32.to_le_bytes());
    data.extend_from_slice(&[0x00, 0x00, 0x00, 0x00, 0x48, 0x49]);
    let mut out = Vec::new();
    let consumed = c77::decompress(&data, &mut out).unwrap();
    assert_eq!(consumed, 14);
    assert_eq!(out, vec![0x48, 0x49]);
}

#[test]
fn c77_sized_chunk_wrong_out_size() {
    let mut data = Vec::new();
    data.extend_from_slice(&6u32.to_le_bytes());
    data.extend_from_slice(&3u32.to_le_bytes());
    data.extend_from_slice(&[0x00, 0x00, 0x00, 0x00, 0x48, 0x49]);
    let mut out = Vec::new();
    assert_eq!(c77::decompress(&data, &mut out), Err(Error::Frame));
}

#[test]
fn c77_unsupported_mode() {
    let mut out = Vec::new();
    let err = c77::decompress_inner(&[0x10, 0x00, 0x00, 0x00], &mut out).unwrap_err();
    assert_eq!(err, Error::Unsupported { mode: 16 });
}

#[test]
fn c77_mode8_tokens() {
    // (0,1) literal 'a', then copy 4 at offset 1 plus the mandatory tail
    let mut out = Vec::new();
    c77::decompress_inner(
        &[0x08, 0x00, 0x00, 0x00, 0x00, 0x01, 0x61, 0x04, 0x00, 0x61],
        &mut out,
    )
    .unwrap();
    assert_eq!(out, b"aaaaaa".to_vec());
}

#[test]
fn c77_encoder_exact_tokens() {
    let mut tokens = Vec::new();
    c77::compress_inner(b"aaaaaa", &mut tokens);
    assert_eq!(tokens, vec![0x00, 0x01, 0x61, 0x04, 0x00, 0x61]);
}

#[test]
fn error_messages_name_the_failure() {
    assert!(Error::Read { pos: 3 }.message().contains("read"));
    assert!(Error::Frame.message().contains("framing"));
}

#[test]
fn empty_input_decodes_to_nothing() {
    let mut out = Vec::new();
    bzip::decompress(&[], &mut out).unwrap();
    assert_eq!(out, Vec::<u8>::new());
}

#[test]
fn mode1_extended_literal_truncated() {
    // extended literal header declaring 0x41 bytes with only 3 present
    let mut out = Vec::new();
    let err = bzip::decompress(&[0x20, 0x41, 0x42, 0x43, 0x44], &mut out).unwrap_err();
    assert_eq!(err, Error::Read { pos: 2 });
}

#[test]
fn mode1_extended_constant_run() {
    let mut out = Vec::new();
    bzip::decompress(&[0x50, 0x01, 0x5A], &mut out).unwrap();
    assert_eq!(out, vec![0x5A; 5]);
}

#[test]
fn mode2_constant_run_opcode() {
    // the 13-bit value 1 escapes to a constant run: 14 + 2 copies of 'A'
    let mut out = Vec::new();
    bzip::decompress(&[0x00, 0x03, 0x01, 0x34, 0x00, 0x41, 0x00], &mut out).unwrap();
    assert_eq!(out, vec![0x41; 16]);
}
