use falcompress::bzip;
use falcompress::bzip::CompressMode;
use falcompress::c77;
use falcompress::util;

fn sample(len: usize, seed: u64) -> Vec<u8> {
    // a small deterministic byte generator with mixed runs and noise
    let mut state = seed;
    let mut out = Vec::with_capacity(len);
    while out.len() < len {
        state = state.wrapping_mul(6364136223846793005).wrapping_add(1442695040888963407);
        let b = (state >> 33) as u8;
        if state % 5 == 0 {
            let run = 1 + (state % 300) as usize;
            for _ in 0..run {
                if out.len() >= len {
                    break;
                }
                out.push(b);
            }
        } else {
            out.push(b);
        }
    }
    out
}

fn bzip_round_trip(data: &[u8], mode: CompressMode) {
    let mut comp = Vec::new();
    bzip::compress(data, &mut comp, mode);
    let mut out = Vec::new();
    bzip::decompress(&comp, &mut out).unwrap();
    assert_eq!(out, data);
}

#[test]
fn mode1_round_trip_empty() {
    bzip_round_trip(b"", CompressMode::Mode1);
}

#[test]
fn mode2_round_trip_empty() {
    bzip_round_trip(b"", CompressMode::Mode2);
}

#[test]
fn mode1_round_trip_single_byte() {
    bzip_round_trip(b"x", CompressMode::Mode1);
}

#[test]
fn mode2_round_trip_single_byte() {
    bzip_round_trip(b"x", CompressMode::Mode2);
}

#[test]
fn mode1_round_trip_text() {
    bzip_round_trip(b"the quick brown fox jumps over the lazy dog, the lazy dog", CompressMode::Mode1);
}

#[test]
fn mode2_round_trip_text() {
    bzip_round_trip(b"the quick brown fox jumps over the lazy dog, the lazy dog", CompressMode::Mode2);
}

#[test]
fn mode1_round_trip_runs() {
    let mut data = vec![7u8; 5000];
    data.extend_from_slice(b"tail");
    bzip_round_trip(&data, CompressMode::Mode1);
}

#[test]
fn mode2_round_trip_runs() {
    let mut data = vec![7u8; 5000];
    data.extend_from_slice(b"tail");
    bzip_round_trip(&data, CompressMode::Mode2);
}

#[test]
fn mode1_round_trip_mixed() {
    bzip_round_trip(&sample(3000, 1), CompressMode::Mode1);
}

#[test]
fn mode2_round_trip_mixed() {
    bzip_round_trip(&sample(3000, 2), CompressMode::Mode2);
}

#[test]
fn mode2_round_trip_all_byte_values() {
    let data: Vec<u8> = (0..=255u8).cycle().take(1024).collect();
    bzip_round_trip(&data, CompressMode::Mode2);
}

#[test]
fn c77_round_trip_mixed() {
    let data = sample(2000, 3);
    let mut tokens = Vec::new();
    c77::compress_inner(&data, &mut tokens);
    let mut chunk = vec![0x08, 0x00, 0x00, 0x00];
    chunk.extend_from_slice(&tokens);
    let mut out = Vec::new();
    c77::decompress_inner(&chunk, &mut out).unwrap();
    assert_eq!(out, data);
}

#[test]
fn c77_round_trip_long_literals() {
    // more than 252 pending literal bytes forces a flush
    let data: Vec<u8> = (0..600u32).map(|i| (i % 256) as u8).collect();
    let mut tokens = Vec::new();
    c77::compress_inner(&data, &mut tokens);
    let mut chunk = vec![0x08, 0x00, 0x00, 0x00];
    chunk.extend_from_slice(&tokens);
    let mut out = Vec::new();
    c77::decompress_inner(&chunk, &mut out).unwrap();
    assert_eq!(out, data);
}

#[test]
fn c77_round_trip_runs() {
    let data = vec![b'z'; 1000];
    let mut tokens = Vec::new();
    c77::compress_inner(&data, &mut tokens);
    let mut chunk = vec![0x08, 0x00, 0x00, 0x00];
    chunk.extend_from_slice(&tokens);
    let mut out = Vec::new();
    c77::decompress_inner(&chunk, &mut out).unwrap();
    assert_eq!(out, data);
}

#[test]
fn match_finder_longest_and_nearest() {
    // two equally long matches: the nearest (largest j) must win
    let s = b"abXabYab";
    let (j, k) = util::find_match(s, 6, 256, 255);
    assert_eq!((j, k), (3, 2));
}

#[test]
fn match_finder_prefers_longer() {
    let s = b"abcXab_abcd";
    // at i=7, "abcd": j=0 gives "abc" (3), j=4 gives "ab" (2)
    let (j, k) = util::find_match(s, 7, 256, 255);
    assert_eq!((j, k), (0, 3));
}

#[test]
fn match_finder_no_candidates() {
    let s = b"xyz";
    assert_eq!(util::find_match(s, 0, 256, 255), (0, 0));
}

#[test]
fn match_finder_respects_limit() {
    let s = b"aaaaaaaaaa";
    let (j, k) = util::find_match(s, 5, 256, 3);
    assert_eq!((j, k), (4, 3));
}

#[test]
fn count_equal_counts_common_prefix() {
    let s = b"banana_banana!";
    assert_eq!(util::count_equal(s, 7, 0, 255), 6);
    assert_eq!(util::count_equal(s, 7, 0, 4), 4);
}
