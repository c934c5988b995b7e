//! ED7 framing: a size-prefixed container of ED6-style chunks — a 32-bit
//! total size, a 32-bit plaintext size, a 32-bit chunk count, then that
//! many framed chunks each followed by a continuation byte. Writers pad
//! with a trailing one-byte chunk; the decoder trims such chunks after the
//! declared plaintext size, validating their content. FREADP is a
//! magic-prefixed variant carrying C77 chunks, falling back to ED7 when
//! the magic is absent.

use vstd::prelude::*;

use crate::bzip::compress::CompressMode;
use crate::c77;
use crate::cursor::le32_at;
use crate::cursor::Reader;
use crate::ed6::read_compressed_chunk;
use crate::ed6::spec_chunk_frame;
use crate::ed6::spec_read_chunk;
use crate::ed6::write_compressed_chunk;
use crate::Error;

verus! {

/// Where a trailing pad chunk's byte must come from: the first byte of the
/// last 0x7FF0-aligned segment of the chunk sequence's plaintext.
pub open spec fn pad_index(base: int, out_size: int) -> int {
    base + ((out_size - 1) / 0x7FF0) * 0x7FF0
}

/// `k` framed chunks from `pos`, each followed by a continuation byte that
/// must be nonzero exactly on non-final chunks. Output past `expected_out`
/// is tolerated only as one-byte chunks holding the pad byte, which are
/// trimmed. Yields the output and the end position.
pub open spec fn decode_ed7_chunks(
    data: Seq<u8>,
    pos: int,
    out: Seq<u8>,
    k: nat,
    expected_out: int,
    base: int,
    out_size: int,
) -> Result<(Seq<u8>, int), Error>
    decreases k,
{
    if k == 0 {
        Ok((out, pos))
    } else {
        match spec_read_chunk(data, pos, out) {
            Err(e) => Err(e),
            Ok((out1, pos1)) => {
                let clen = out1.len() - out.len();
                let over = out1.len() > expected_out;
                if over && clen != 1 {
                    Err(Error::Frame)
                } else if over && out1.last() != (if out_size > 0 {
                    out1[pad_index(base, out_size)]
                } else {
                    0u8
                }) {
                    Err(Error::Frame)
                } else {
                    let out2 = if over {
                        out1.drop_last()
                    } else {
                        out1
                    };
                    if pos1 + 1 > data.len() {
                        Err(Error::Read { pos: pos1 as usize })
                    } else if (data[pos1] != 0) != (k != 1) {
                        Err(Error::Frame)
                    } else {
                        decode_ed7_chunks(
                            data,
                            pos1 + 1,
                            out2,
                            (k - 1) as nat,
                            expected_out,
                            base,
                            out_size,
                        )
                    }
                }
            },
        }
    }
}

/// A whole ED7 container: the three header words, the chunk sequence, and
/// the final checks that the declared input and output sizes were met.
pub open spec fn spec_decompress(data: Seq<u8>, out: Seq<u8>) -> Result<(Seq<u8>, int), Error> {
    if data.len() < 4 {
        Err(Error::Read { pos: 0 })
    } else if data.len() < 8 {
        Err(Error::Read { pos: 4 })
    } else if data.len() < 12 {
        Err(Error::Read { pos: 8 })
    } else {
        let in_size = le32_at(data, 0);
        let out_size = le32_at(data, 4);
        let nchunks = le32_at(data, 8);
        match decode_ed7_chunks(
            data,
            12,
            out,
            nchunks as nat,
            out.len() + out_size,
            out.len() as int,
            out_size,
        ) {
            Err(e) => Err(e),
            Ok((res, end)) => if end != 4 + in_size {
                Err(Error::Frame)
            } else if res.len() != out.len() + out_size {
                Err(Error::Frame)
            } else {
                Ok((res, end))
            },
        }
    }
}

/// Decompresses a whole ED7 container, appending to `out`, and returns the
/// number of input bytes consumed. Result and errors are exactly what
/// [`spec_decompress`] defines.
#[verifier::loop_isolation(false)]
#[verifier::rlimit(100)]
#[verifier::spinoff_prover]
pub fn decompress(data: &[u8], out: &mut Vec<u8>) -> (r: Result<usize, Error>)
    ensures
        old(out)@.is_prefix_of(final(out)@),
        match spec_decompress(data@, old(out)@) {
            Ok((res, end)) => r == Ok::<usize, Error>(end as usize) && final(out)@ == res,
            Err(e) => r == Err::<usize, Error>(e),
        },
{
    let mut f = Reader::new(data);
    let in_size = match f.u32() {
        Ok(v) => v,
        Err(e) => {
            return Err(e);
        },
    };
    let out_size = match f.u32() {
        Ok(v) => v,
        Err(e) => {
            return Err(e);
        },
    };
    let nchunks = match f.u32() {
        Ok(v) => v,
        Err(e) => {
            return Err(e);
        },
    };
    let base = out.len();
    let ghost expected_out = out@.len() + out_size;
    let mut n: u32 = 0;
    while n < nchunks
        invariant
            f.wf(),
            f.data_seq() == data@,
            n <= nchunks,
            base <= out@.len(),
            old(out)@.is_prefix_of(out@),
            base == old(out)@.len(),
            decode_ed7_chunks(
                data@,
                12,
                old(out)@,
                nchunks as nat,
                expected_out,
                base as int,
                out_size as int,
            ) == decode_ed7_chunks(
                data@,
                f.position(),
                out@,
                (nchunks - n) as nat,
                expected_out,
                base as int,
                out_size as int,
            ),
        decreases nchunks - n,
    {
        let ghost pre_out = out@;
        let pre_len = out.len();
        match read_compressed_chunk(&mut f, out) {
            Ok(_) => {},
            Err(e) => {
                proof {
                    lemma_prefix_chain(old(out)@, pre_out, out@);
                }
                return Err(e);
            },
        }
        let appended = out.len() - base;
        if appended > out_size as usize {
            if out.len() - pre_len != 1 {
                proof {
                    lemma_prefix_chain(old(out)@, pre_out, out@);
                }
                return Err(Error::Frame);
            }
            let expect_b: u8 = if out_size > 0 {
                let q = (out_size as usize - 1) / 0x7FF0;
                out[base + q * 0x7FF0]
            } else {
                0
            };
            let got = match out.pop() {
                Some(b) => b,
                None => {
                    return Err(Error::Frame);
                },
            };
            if got != expect_b {
                proof {
                    lemma_prefix_chain(old(out)@, pre_out, out@);
                }
                return Err(Error::Frame);
            }
        }
        let b = match f.u8() {
            Ok(v) => v,
            Err(e) => {
                proof {
                    lemma_prefix_chain(old(out)@, pre_out, out@);
                }
                return Err(e);
            },
        };
        if (b != 0) != (n != nchunks - 1) {
            proof {
                lemma_prefix_chain(old(out)@, pre_out, out@);
            }
            return Err(Error::Frame);
        }
        n = n + 1;
        proof {
            lemma_prefix_chain(old(out)@, pre_out, out@);
        }
    }
    if f.pos() < 4 || f.pos() - 4 != in_size as usize {
        return Err(Error::Frame);
    }
    if out.len() - base != out_size as usize {
        return Err(Error::Frame);
    }
    Ok(f.pos())
}

proof fn lemma_prefix_chain(base: Seq<u8>, mid: Seq<u8>, cur: Seq<u8>)
    requires
        base.is_prefix_of(mid),
        mid.is_prefix_of(cur),
    ensures
        base.is_prefix_of(cur),
{
    assert(base =~= cur.subrange(0, base.len() as int));
}

/// `k` C77 chunks from `pos`, each self-delimiting via its size prefix.
/// Yields the output, the end position, and the largest chunk length seen.
pub open spec fn decode_freadp_chunks(
    data: Seq<u8>,
    pos: int,
    out: Seq<u8>,
    k: nat,
    maxc: int,
) -> Result<(Seq<u8>, int, int), Error>
    decreases k,
{
    if k == 0 {
        Ok((out, pos, maxc))
    } else if !(0 <= pos <= data.len()) {
        Err(Error::Frame)
    } else {
        let chunk_data = data.subrange(pos, data.len() as int);
        match c77::spec_decompress(chunk_data, out) {
            Err(e) => Err(e),
            Ok(res) => {
                let consumed = 8 + le32_at(chunk_data, 0);
                decode_freadp_chunks(
                    data,
                    pos + consumed,
                    res,
                    (k - 1) as nat,
                    if consumed > maxc {
                        consumed
                    } else {
                        maxc
                    },
                )
            },
        }
    }
}

/// A whole FREADP container: the magic, four header words, the C77 chunk
/// sequence, and the checks of the declared buffer, input and output
/// sizes. Without the magic, the bytes are read as an ED7 container.
pub open spec fn spec_freadp(data: Seq<u8>, out: Seq<u8>) -> Result<(Seq<u8>, int), Error> {
    if data.len() >= 4 && le32_at(data, 0) == 0x80000001 {
        if data.len() < 8 {
            Err(Error::Read { pos: 4 })
        } else if data.len() < 12 {
            Err(Error::Read { pos: 8 })
        } else if data.len() < 16 {
            Err(Error::Read { pos: 12 })
        } else if data.len() < 20 {
            Err(Error::Read { pos: 16 })
        } else {
            let n_chunks = le32_at(data, 4);
            let in_size = le32_at(data, 8);
            let buf_size = le32_at(data, 12);
            let out_size = le32_at(data, 16);
            match decode_freadp_chunks(data, 20, out, n_chunks as nat, 0) {
                Err(e) => Err(e),
                Ok((res, end, maxc)) => if maxc != buf_size {
                    Err(Error::Frame)
                } else if end != 20 + in_size {
                    Err(Error::Frame)
                } else if res.len() != out.len() + out_size {
                    Err(Error::Frame)
                } else {
                    Ok((res, end))
                },
            }
        }
    } else {
        spec_decompress(data, out)
    }
}

/// Decompresses a FREADP container, appending to `out`, and returns the
/// number of input bytes consumed; falls back to ED7 when the magic is
/// absent. Result and errors are exactly what [`spec_freadp`] defines.
#[verifier::loop_isolation(false)]
#[verifier::rlimit(100)]
#[verifier::spinoff_prover]
pub fn freadp(data: &[u8], out: &mut Vec<u8>) -> (r: Result<usize, Error>)
    ensures
        old(out)@.is_prefix_of(final(out)@),
        match spec_freadp(data@, old(out)@) {
            Ok((res, end)) => r == Ok::<usize, Error>(end as usize) && final(out)@ == res,
            Err(e) => r == Err::<usize, Error>(e),
        },
{
    let mut f = Reader::new(data);
    if f.check_u32(0x80000001) {
        let n_chunks = match f.u32() {
            Ok(v) => v,
            Err(e) => {
                return Err(e);
            },
        };
        let in_size = match f.u32() {
            Ok(v) => v,
            Err(e) => {
                return Err(e);
            },
        };
        let buf_size = match f.u32() {
            Ok(v) => v,
            Err(e) => {
                return Err(e);
            },
        };
        let out_size = match f.u32() {
            Ok(v) => v,
            Err(e) => {
                return Err(e);
            },
        };
        let base = out.len();
        let mut max_chunk_len: usize = 0;
        let mut n: u32 = 0;
        while n < n_chunks
            invariant
                f.wf(),
                f.data_seq() == data@,
                n <= n_chunks,
                base <= out@.len(),
                old(out)@.is_prefix_of(out@),
                base == old(out)@.len(),
                decode_freadp_chunks(data@, 20, old(out)@, n_chunks as nat, 0)
                    == decode_freadp_chunks(
                    data@,
                    f.position(),
                    out@,
                    (n_chunks - n) as nat,
                    max_chunk_len as int,
                ),
            decreases n_chunks - n,
        {
            let ghost pre_out = out@;
            let ghost pre_pos = f.position();
            let ghost pre_max = max_chunk_len as int;
            let rem = f.remaining();
            let _remlen = rem.len();
            proof {
                assert(data@.subrange(f.position(), data@.len() as int) =~= rem@);
                assert(rem@.len() == _remlen);
            }
            let consumed = match c77::decompress(rem, out) {
                Ok(v) => v,
                Err(e) => {
                    proof {
                        lemma_prefix_chain(old(out)@, pre_out, out@);
                        assert(data@.subrange(f.position(), data@.len() as int) =~= rem@);
                    }
                    return Err(e);
                },
            };
            match f.slice(consumed) {
                Ok(_) => {},
                Err(e) => {
                    proof {
                        lemma_prefix_chain(old(out)@, pre_out, out@);
                    }
                    return Err(e);
                },
            }
            if consumed > max_chunk_len {
                max_chunk_len = consumed;
            }
            n = n + 1;
            proof {
                lemma_prefix_chain(old(out)@, pre_out, out@);
                let chunk_data = data@.subrange(pre_pos, data@.len() as int);
                assert(c77::spec_decompress(chunk_data, pre_out) matches Ok(res) && res == out@);
                assert(8 + le32_at(chunk_data, 0) <= chunk_data.len());
                assert(consumed == 8 + le32_at(chunk_data, 0));
                assert(f.position() == pre_pos + consumed);
                assert(max_chunk_len as int == if 8 + le32_at(chunk_data, 0) > pre_max {
                    8 + le32_at(chunk_data, 0)
                } else {
                    pre_max
                });
            }
        }
        if max_chunk_len != buf_size as usize {
            return Err(Error::Frame);
        }
        if f.pos() < 20 || f.pos() - 20 != in_size as usize {
            return Err(Error::Frame);
        }
        if out.len() - base != out_size as usize {
            return Err(Error::Frame);
        }
        Ok(f.pos())
    } else {
        decompress(data, out)
    }
}

/// A little-endian 32-bit value as four bytes.
pub open spec fn le32_bytes(v: int) -> Seq<u8> {
    seq![
        (v % 0x100) as u8,
        (v / 0x100 % 0x100) as u8,
        (v / 0x10000 % 0x100) as u8,
        (v / 0x1000000 % 0x100) as u8,
    ]
}

fn push_u32(out: &mut Vec<u8>, v: u32)
    ensures
        final(out)@ == old(out)@ + le32_bytes(v as int),
{
    out.push((v % 0x100) as u8);
    out.push((v / 0x100 % 0x100) as u8);
    out.push((v / 0x10000 % 0x100) as u8);
    out.push((v / 0x1000000 % 0x100) as u8);
    proof {
        assert(out@ =~= old(out)@ + le32_bytes(v as int));
    }
}

/// The framed chunk sequence of [`spec_ed7_compress`]: chunks of up to
/// 0x7FF0 plaintext bytes, each followed by a continuation byte of 1.
pub open spec fn spec_ed7_chunks(s: Seq<u8>, pos: int, mode: CompressMode) -> Seq<u8>
    decreases s.len() - pos,
    when 0 <= pos <= s.len()
{
    if pos >= s.len() {
        Seq::empty()
    } else {
        let take = if s.len() - pos >= 0x7FF0 {
            0x7FF0int
        } else {
            s.len() - pos
        };
        spec_chunk_frame(s.subrange(pos, pos + take), mode) + seq![1u8] + spec_ed7_chunks(
            s,
            pos + take,
            mode,
        )
    }
}

/// A whole ED7 container for `s`: a 32-bit total size counting everything
/// after it, the plaintext size, one more than the chunk count, the
/// chunks, and the writer's trailing one-byte pad chunk with continuation
/// zero. Sizes are truncated to 32 bits.
pub open spec fn spec_ed7_compress(s: Seq<u8>, mode: CompressMode) -> Seq<u8> {
    let nchunks: int = if s.len() == 0 {
        0int
    } else {
        (s.len() - 1) / 0x7FF0 + 1
    };
    let dummy: u8 = if s.len() > 0 {
        s[((s.len() - 1) / 0x7FF0) * 0x7FF0]
    } else {
        0u8
    };
    let body = le32_bytes(s.len() as int % 0x100000000) + le32_bytes((1 + nchunks) % 0x100000000)
        + spec_ed7_chunks(s, 0, mode) + spec_chunk_frame(seq![dummy], mode) + seq![0u8];
    le32_bytes(body.len() as int % 0x100000000) + body
}

/// Compresses `data` into an ED7 container of the given mode. The result
/// is exactly what [`spec_ed7_compress`] defines.
#[verifier::loop_isolation(false)]
#[verifier::rlimit(100)]
#[verifier::spinoff_prover]
pub fn compress(data: &[u8], mode: CompressMode) -> (r: Vec<u8>)
    ensures
        r@ == spec_ed7_compress(data@, mode),
{
    let mut body: Vec<u8> = Vec::new();
    let nchunks: usize = if data.len() == 0 {
        0
    } else {
        (data.len() - 1) / 0x7FF0 + 1
    };
    let dummy: u8 = if data.len() > 0 {
        data[((data.len() - 1) / 0x7FF0) * 0x7FF0]
    } else {
        0
    };
    push_u32(&mut body, (data.len() as u64 % 0x100000000) as u32);
    push_u32(&mut body, ((1 + nchunks as u64) % 0x100000000) as u32);
    let ghost hdr = body@;
    let mut pos: usize = 0;
    while pos < data.len()
        invariant
            pos <= data@.len(),
            hdr + spec_ed7_chunks(data@, 0, mode) == body@ + spec_ed7_chunks(
                data@,
                pos as int,
                mode,
            ),
        decreases data@.len() - pos,
    {
        let ghost pre_body = body@;
        let ghost pos0 = pos as int;
        let take = if data.len() - pos >= 0x7FF0 {
            0x7FF0
        } else {
            data.len() - pos
        };
        let chunk = vstd::slice::slice_subrange(data, pos, pos + take);
        write_compressed_chunk(&mut body, chunk, mode);
        body.push(1);
        pos = pos + take;
        proof {
            assert(pre_body + spec_ed7_chunks(data@, pos0, mode) =~= body@ + spec_ed7_chunks(
                data@,
                pos as int,
                mode,
            ));
        }
    }
    proof {
        assert(spec_ed7_chunks(data@, pos as int, mode) =~= Seq::<u8>::empty());
        assert(body@ =~= hdr + spec_ed7_chunks(data@, 0, mode));
    }
    let mut pad: Vec<u8> = Vec::new();
    pad.push(dummy);
    proof {
        assert(pad@ =~= seq![dummy]);
    }
    write_compressed_chunk(&mut body, pad.as_slice(), mode);
    body.push(0);
    let mut out: Vec<u8> = Vec::new();
    push_u32(&mut out, (body.len() as u64 % 0x100000000) as u32);
    crate::sink::extend_bytes(&mut out, body.as_slice());
    proof {
        assert(out@ =~= spec_ed7_compress(data@, mode));
    }
    out
}

} // verus!
