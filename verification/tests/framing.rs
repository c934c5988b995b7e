use falcompress::bzip::CompressMode;
use falcompress::ed6;
use falcompress::ed7;
use falcompress::Error;

fn patterned(len: usize) -> Vec<u8> {
    (0..len).map(|i| ((i * 7 + i / 251) % 256) as u8).collect()
}

#[test]
fn ed6_round_trip_mode2() {
    let data = patterned(2000);
    let arch = ed6::compress(&data, CompressMode::Mode2);
    let mut out = Vec::new();
    let consumed = ed6::decompress(&arch, &mut out).unwrap();
    assert_eq!(consumed, arch.len());
    assert_eq!(out, data);
}

#[test]
fn ed6_round_trip_mode1() {
    let data = patterned(1000);
    let arch = ed6::compress(&data, CompressMode::Mode1);
    let mut out = Vec::new();
    let consumed = ed6::decompress(&arch, &mut out).unwrap();
    assert_eq!(consumed, arch.len());
    assert_eq!(out, data);
}

#[test]
fn ed6_empty_input_makes_empty_archive() {
    let arch = ed6::compress(b"", CompressMode::Mode2);
    assert_eq!(arch, Vec::<u8>::new());
    let mut out = Vec::new();
    assert_eq!(ed6::decompress(&arch, &mut out), Err(Error::Read { pos: 0 }));
}

#[test]
fn ed6_inspect_reports_length_and_mode() {
    let data = patterned(1500);
    let arch = ed6::compress(&data, CompressMode::Mode2);
    let (len, mode) = ed6::inspect(&arch).unwrap();
    assert_eq!(len, data.len());
    assert_eq!(mode, Some(CompressMode::Mode2));
}

#[test]
fn ed6_inspect_mode1() {
    let data = patterned(100);
    let arch = ed6::compress(&data, CompressMode::Mode1);
    let (len, mode) = ed6::inspect(&arch).unwrap();
    assert_eq!(len, data.len());
    assert_eq!(mode, Some(CompressMode::Mode1));
}

#[test]
fn ed6_inspect_rejects_trailing_garbage() {
    let data = patterned(100);
    let mut arch = ed6::compress(&data, CompressMode::Mode2);
    arch.push(0xAA);
    assert_eq!(ed6::inspect(&arch), None);
}

#[test]
fn ed7_round_trip_small() {
    let data = patterned(500);
    let arch = ed7::compress(&data, CompressMode::Mode2);
    let mut out = Vec::new();
    let consumed = ed7::decompress(&arch, &mut out).unwrap();
    assert_eq!(consumed, arch.len());
    assert_eq!(out, data);
}

#[test]
fn ed7_full_chunk_with_trailing_pad() {
    // exactly one 0x7FF0 chunk plus the writer's one-byte pad chunk: the
    // decoder must trim the pad and land on the declared plaintext size
    let data = vec![0x5A; 0x7FF0];
    let arch = ed7::compress(&data, CompressMode::Mode2);
    let mut out = Vec::new();
    let consumed = ed7::decompress(&arch, &mut out).unwrap();
    assert_eq!(consumed, arch.len());
    assert_eq!(out.len(), 0x7FF0);
    assert_eq!(out, data);
}

#[test]
fn ed7_round_trip_empty() {
    let arch = ed7::compress(b"", CompressMode::Mode2);
    let mut out = Vec::new();
    let consumed = ed7::decompress(&arch, &mut out).unwrap();
    assert_eq!(consumed, arch.len());
    assert_eq!(out, Vec::<u8>::new());
}

#[test]
fn ed7_rejects_bad_continuation() {
    let data = patterned(300);
    let mut arch = ed7::compress(&data, CompressMode::Mode2);
    // the final continuation byte is the archive's last byte; making it
    // nonzero declares more chunks than exist
    let last = arch.len() - 1;
    arch[last] = 1;
    let mut out = Vec::new();
    assert_eq!(ed7::decompress(&arch, &mut out), Err(Error::Frame));
}

#[test]
fn ed7_rejects_truncated_header() {
    let mut out = Vec::new();
    assert_eq!(
        ed7::decompress(&[0x01, 0x02], &mut out),
        Err(Error::Read { pos: 0 })
    );
}

#[test]
fn freadp_falls_back_to_ed7() {
    let data = patterned(400);
    let arch = ed7::compress(&data, CompressMode::Mode2);
    let mut out = Vec::new();
    let consumed = ed7::freadp(&arch, &mut out).unwrap();
    assert_eq!(consumed, arch.len());
    assert_eq!(out, data);
}

fn c77_chunk(plain: &[u8]) -> Vec<u8> {
    let mut payload = vec![0x00, 0x00, 0x00, 0x00];
    payload.extend_from_slice(plain);
    let mut chunk = Vec::new();
    chunk.extend_from_slice(&(payload.len() as u32).to_le_bytes());
    chunk.extend_from_slice(&(plain.len() as u32).to_le_bytes());
    chunk.extend_from_slice(&payload);
    chunk
}

#[test]
fn freadp_magic_container() {
    let chunk = c77_chunk(b"HI");
    let mut arch = Vec::new();
    arch.extend_from_slice(&0x80000001u32.to_le_bytes());
    arch.extend_from_slice(&1u32.to_le_bytes());
    arch.extend_from_slice(&(chunk.len() as u32).to_le_bytes());
    arch.extend_from_slice(&(chunk.len() as u32).to_le_bytes());
    arch.extend_from_slice(&2u32.to_le_bytes());
    arch.extend_from_slice(&chunk);
    let mut out = Vec::new();
    let consumed = ed7::freadp(&arch, &mut out).unwrap();
    assert_eq!(consumed, arch.len());
    assert_eq!(out, b"HI".to_vec());
}

#[test]
fn freadp_rejects_wrong_buf_size() {
    let chunk = c77_chunk(b"HI");
    let mut arch = Vec::new();
    arch.extend_from_slice(&0x80000001u32.to_le_bytes());
    arch.extend_from_slice(&1u32.to_le_bytes());
    arch.extend_from_slice(&(chunk.len() as u32).to_le_bytes());
    arch.extend_from_slice(&(chunk.len() as u32 + 1).to_le_bytes());
    arch.extend_from_slice(&2u32.to_le_bytes());
    arch.extend_from_slice(&chunk);
    let mut out = Vec::new();
    assert_eq!(ed7::freadp(&arch, &mut out), Err(Error::Frame));
}

#[test]
fn ed6_multi_chunk_round_trip() {
    // more than one 0xFFF0-byte chunk
    let data: Vec<u8> = (0..70000usize).map(|i| (i % 256) as u8).collect();
    let arch = ed6::compress(&data, CompressMode::Mode2);
    let mut out = Vec::new();
    let consumed = ed6::decompress(&arch, &mut out).unwrap();
    assert_eq!(consumed, arch.len());
    assert_eq!(out, data);
}

#[test]
fn ed7_multi_chunk_round_trip_mode1() {
    let data: Vec<u8> = (0..40000usize).map(|i| (i % 256) as u8).collect();
    let arch = ed7::compress(&data, CompressMode::Mode1);
    let mut out = Vec::new();
    let consumed = ed7::decompress(&arch, &mut out).unwrap();
    assert_eq!(consumed, arch.len());
    assert_eq!(out, data);
}
