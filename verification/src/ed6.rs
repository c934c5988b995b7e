//! ED6 framing: an open-ended sequence of size-prefixed BZip chunks, each
//! followed by a continuation byte — nonzero means more chunks follow,
//! zero terminates. The chunk length prefix counts itself, so a chunk of
//! `n` compressed bytes is framed as `n + 2`.

use vstd::prelude::*;

use crate::bzip;
use crate::bzip::compress::enc1;
use crate::bzip::compress::enc2_full;
use crate::bzip::compress::CompressMode;
use crate::cursor::le16_at;
use crate::cursor::Reader;
use crate::Error;

verus! {

/// The bytes one BZip mode emits for `s`.
pub open spec fn spec_compress(s: Seq<u8>, mode: CompressMode) -> Seq<u8> {
    match mode {
        CompressMode::Mode1 => enc1(s, 0, 0),
        CompressMode::Mode2 => enc2_full(s),
    }
}

/// One framed chunk read at `pos`: a 16-bit length (at least 2, counting
/// itself), the compressed bytes, decompressed onto `out`. Yields the
/// extended output and the position after the chunk.
pub open spec fn spec_read_chunk(data: Seq<u8>, pos: int, out: Seq<u8>) -> Result<
    (Seq<u8>, int),
    Error,
> {
    if pos + 2 > data.len() {
        Err(Error::Read { pos: pos as usize })
    } else {
        let chunklen = le16_at(data, pos);
        if chunklen < 2 {
            Err(Error::Frame)
        } else if pos + chunklen > data.len() {
            Err(Error::Read { pos: (pos + 2) as usize })
        } else {
            match bzip::decompress::spec_decompress(data.subrange(pos + 2, pos + chunklen), out) {
                Ok(res) => Ok((res, pos + chunklen)),
                Err(e) => Err(e),
            }
        }
    }
}

/// The chunk sequence from `pos`: chunks are read until one is followed by
/// a zero continuation byte. Yields the full output and the end position.
pub open spec fn decode_ed6(data: Seq<u8>, pos: int, out: Seq<u8>) -> Result<(Seq<u8>, int), Error>
    decreases data.len() - pos,
    when 0 <= pos <= data.len()
{
    match spec_read_chunk(data, pos, out) {
        Err(e) => Err(e),
        Ok((out1, pos1)) => if pos1 + 1 > data.len() {
            Err(Error::Read { pos: pos1 as usize })
        } else if data[pos1] == 0 {
            Ok((out1, pos1 + 1))
        } else {
            decode_ed6(data, pos1 + 1, out1)
        },
    }
}

/// Reads one framed chunk, appending its plaintext to `out`, and returns
/// how many bytes it appended.
pub fn read_compressed_chunk(f: &mut Reader<'_>, out: &mut Vec<u8>) -> (r: Result<usize, Error>)
    requires
        old(f).wf(),
    ensures
        final(f).wf(),
        final(f).data_seq() == old(f).data_seq(),
        old(out)@.is_prefix_of(final(out)@),
        match spec_read_chunk(old(f).data_seq(), old(f).position(), old(out)@) {
            Ok((res, pos1)) => r == Ok::<usize, Error>((res.len() - old(out)@.len()) as usize)
                && final(out)@ == res && final(f).position() == pos1,
            Err(e) => r == Err::<usize, Error>(e),
        },
{
    let start = out.len();
    let chunklen = match f.u16() {
        Ok(v) => v,
        Err(e) => {
            proof {
                assert(old(out)@.is_prefix_of(out@));
            }
            return Err(e);
        },
    };
    if chunklen < 2 {
        return Err(Error::Frame);
    }
    let chunk = match f.slice(chunklen as usize - 2) {
        Ok(v) => v,
        Err(e) => {
            return Err(e);
        },
    };
    match bzip::decompress(chunk, out) {
        Ok(()) => {},
        Err(e) => {
            return Err(e);
        },
    }
    proof {
        assert(chunk@ == old(f).data_seq().subrange(
            old(f).position() + 2,
            old(f).position() + le16_at(old(f).data_seq(), old(f).position()),
        ));
    }
    Ok(out.len() - start)
}

/// Decompresses a whole ED6 stream, appending to `out`, and returns the
/// number of input bytes consumed. Result and errors are exactly what
/// [`decode_ed6`] defines.
#[verifier::loop_isolation(false)]
pub fn decompress(data: &[u8], out: &mut Vec<u8>) -> (r: Result<usize, Error>)
    ensures
        old(out)@.is_prefix_of(final(out)@),
        match decode_ed6(data@, 0, old(out)@) {
            Ok((res, end)) => r == Ok::<usize, Error>(end as usize) && final(out)@ == res,
            Err(e) => r == Err::<usize, Error>(e),
        },
{
    let mut f = Reader::new(data);
    let mut done = false;
    while !done
        invariant
            f.wf(),
            f.data_seq() == data@,
            old(out)@.is_prefix_of(out@),
            if done {
                decode_ed6(data@, 0, old(out)@) == Ok::<(Seq<u8>, int), Error>(
                    (out@, f.position()),
                )
            } else {
                decode_ed6(data@, 0, old(out)@) == decode_ed6(data@, f.position(), out@)
            },
        decreases data@.len() - f.position() + if done {
            0int
        } else {
            1int
        },
    {
        let ghost pre_out = out@;
        match read_compressed_chunk(&mut f, out) {
            Ok(_) => {},
            Err(e) => {
                return Err(e);
            },
        }
        let b = match f.u8() {
            Ok(v) => v,
            Err(e) => {
                proof {
                    lemma_prefix_chain(old(out)@, pre_out, out@);
                }
                return Err(e);
            },
        };
        if b == 0 {
            done = true;
        }
        proof {
            lemma_prefix_chain(old(out)@, pre_out, out@);
        }
    }
    Ok(f.pos())
}

proof fn lemma_prefix_chain(base: Seq<u8>, mid: Seq<u8>, cur: Seq<u8>)
    requires
        base.is_prefix_of(mid),
        mid.is_prefix_of(cur),
    ensures
        base.is_prefix_of(cur),
{
    assert(base =~= cur.subrange(0, base.len() as int));
}

/// One chunk as framed on the wire: the compressed bytes behind a 16-bit
/// length prefix that counts itself. Lengths are truncated to 16 bits.
pub open spec fn spec_chunk_frame(chunk: Seq<u8>, mode: CompressMode) -> Seq<u8> {
    let comp = spec_compress(chunk, mode);
    let v = (comp.len() + 2) % 0x10000;
    seq![(v % 0x100) as u8, (v / 0x100) as u8] + comp
}

/// Compresses `chunk` in the given mode and appends it to `out` framed
/// behind its length prefix.
pub fn write_compressed_chunk(out: &mut Vec<u8>, chunk: &[u8], mode: CompressMode)
    ensures
        final(out)@ == old(out)@ + spec_chunk_frame(chunk@, mode),
{
    let mut scratch: Vec<u8> = Vec::new();
    bzip::compress::compress(chunk, &mut scratch, mode);
    let l16 = scratch.len() % 0x10000;
    let v = (l16 + 2) % 0x10000;
    proof {
        assert(v == (scratch@.len() + 2) % 0x10000) by (nonlinear_arith)
            requires
                l16 == scratch@.len() % 0x10000,
                v == (l16 + 2) % 0x10000,
                scratch@.len() >= 0,
        ;
    }
    out.push((v % 0x100) as u8);
    out.push((v / 0x100) as u8);
    crate::sink::extend_bytes(out, scratch.as_slice());
    proof {
        assert(out@ =~= old(out)@ + spec_chunk_frame(chunk@, mode));
    }
}

/// A whole ED6 stream for `s`: chunks of up to 0xFFF0 bytes of plaintext,
/// each framed and followed by a continuation byte — 1 while chunks
/// remain, 0 after the last. Empty input produces an empty stream.
pub open spec fn spec_ed6_compress(s: Seq<u8>, pos: int, mode: CompressMode) -> Seq<u8>
    decreases s.len() - pos,
    when 0 <= pos <= s.len()
{
    if pos >= s.len() {
        Seq::empty()
    } else {
        let take = if s.len() - pos >= 0xFFF0 {
            0xFFF0int
        } else {
            s.len() - pos
        };
        let cont: u8 = if pos + take < s.len() {
            1u8
        } else {
            0u8
        };
        spec_chunk_frame(s.subrange(pos, pos + take), mode) + seq![cont] + spec_ed6_compress(
            s,
            pos + take,
            mode,
        )
    }
}

/// Compresses `data` into an ED6 stream of the given mode. The result is
/// exactly what [`spec_ed6_compress`] defines.
#[verifier::loop_isolation(false)]
pub fn compress(data: &[u8], mode: CompressMode) -> (r: Vec<u8>)
    ensures
        r@ == spec_ed6_compress(data@, 0, mode),
{
    let mut out: Vec<u8> = Vec::new();
    let mut pos: usize = 0;
    while pos < data.len()
        invariant
            pos <= data@.len(),
            spec_ed6_compress(data@, 0, mode) == out@ + spec_ed6_compress(data@, pos as int, mode),
        decreases data@.len() - pos,
    {
        let ghost pre_out = out@;
        let ghost pos0 = pos as int;
        let take = if data.len() - pos >= 0xFFF0 {
            0xFFF0
        } else {
            data.len() - pos
        };
        let chunk = vstd::slice::slice_subrange(data, pos, pos + take);
        write_compressed_chunk(&mut out, chunk, mode);
        pos = pos + take;
        if pos < data.len() {
            out.push(1);
        } else {
            out.push(0);
        }
        proof {
            assert(pre_out + spec_ed6_compress(data@, pos0, mode) =~= out@ + spec_ed6_compress(
                data@,
                pos as int,
                mode,
            ));
        }
    }
    proof {
        assert(spec_ed6_compress(data@, 0, mode) =~= out@);
    }
    out
}

/// What [`inspect`] reports: walks the chunk structure without decoding,
/// counting 0xFFF0 plaintext bytes for every non-final chunk and decoding
/// only the final one for its exact length; reports the single mode used,
/// or nothing when the two modes are mixed or the structure is malformed.
pub open spec fn spec_inspect(
    data: Seq<u8>,
    pos: int,
    len: int,
    has1: bool,
    has2: bool,
) -> Option<(int, Option<CompressMode>)>
    decreases data.len() - pos,
    when 0 <= pos <= data.len()
{
    if pos + 2 > data.len() {
        None
    } else {
        let chunklen = le16_at(data, pos);
        if chunklen < 2 {
            None
        } else if pos + chunklen > data.len() {
            None
        } else if chunklen == 2 {
            None
        } else {
            let chunk = data.subrange(pos + 2, pos + chunklen);
            let h1 = has1 || chunk[0] != 0;
            let h2 = has2 || chunk[0] == 0;
            if pos + chunklen + 1 > data.len() {
                None
            } else if data[pos + chunklen] != 0 {
                if len + 0xFFF0 > usize::MAX as int {
                    None
                } else {
                    spec_inspect(data, pos + chunklen + 1, len + 0xFFF0, h1, h2)
                }
            } else if pos + chunklen + 1 != data.len() {
                None
            } else {
                match bzip::decompress::spec_decompress(chunk, Seq::empty()) {
                    Err(e) => None,
                    Ok(res) => if len + res.len() > usize::MAX as int {
                        None
                    } else {
                        Some(
                            (
                                len + res.len(),
                                if h1 && h2 {
                                    None
                                } else if h1 {
                                    Some(CompressMode::Mode1)
                                } else {
                                    Some(CompressMode::Mode2)
                                },
                            ),
                        )
                    },
                }
            }
        }
    }
}

/// Reports the plaintext length of an ED6 stream and the single BZip mode
/// it uses, without decoding more than its final chunk. Malformed
/// structure yields nothing; mixed modes yield a length but no mode.
#[verifier::loop_isolation(false)]
#[verifier::rlimit(100)]
#[verifier::spinoff_prover]
pub fn inspect(data: &[u8]) -> (r: Option<(usize, Option<CompressMode>)>)
    ensures
        match spec_inspect(data@, 0, 0, false, false) {
            Some((len, mode)) => r == Some((len as usize, mode)),
            None => r is None,
        },
{
    let mut f = Reader::new(data);
    let mut len: usize = 0;
    let mut has1 = false;
    let mut has2 = false;
    let mut result: Option<(usize, Option<CompressMode>)> = None;
    let mut done = false;
    while !done
        invariant
            f.wf(),
            f.data_seq() == data@,
            if done {
                match spec_inspect(data@, 0, 0, false, false) {
                    Some((l, mode)) => result == Some((l as usize, mode)),
                    None => result is None,
                }
            } else {
                result is None && spec_inspect(data@, 0, 0, false, false) == spec_inspect(
                    data@,
                    f.position(),
                    len as int,
                    has1,
                    has2,
                )
            },
        decreases data@.len() - f.position() + if done {
            0int
        } else {
            1int
        },
    {
        let chunklen = match f.u16() {
            Ok(v) => v,
            Err(_) => {
                done = true;
                continue ;
            },
        };
        if chunklen < 2 {
            done = true;
            continue ;
        }
        let chunk = match f.slice(chunklen as usize - 2) {
            Ok(v) => v,
            Err(_) => {
                done = true;
                continue ;
            },
        };
        if chunk.len() == 0 {
            done = true;
            continue ;
        }
        if chunk[0] == 0 {
            has2 = true;
        } else {
            has1 = true;
        }
        let cont = match f.u8() {
            Ok(v) => v,
            Err(_) => {
                done = true;
                continue ;
            },
        };
        if cont != 0 {
            if len > usize::MAX - 0xFFF0 {
                done = true;
                continue ;
            }
            len = len + 0xFFF0;
        } else {
            if !f.is_empty() {
                done = true;
                continue ;
            }
            let mut vec: Vec<u8> = Vec::new();
            match bzip::decompress(chunk, &mut vec) {
                Ok(()) => {},
                Err(_) => {
                    done = true;
                    continue ;
                },
            }
            if vec.len() > usize::MAX - len {
                done = true;
                continue ;
            }
            let mode = if has1 && has2 {
                None
            } else if has1 {
                Some(CompressMode::Mode1)
            } else {
                Some(CompressMode::Mode2)
            };
            result = Some((len + vec.len(), mode));
            done = true;
        }
    }
    result
}

} // verus!
