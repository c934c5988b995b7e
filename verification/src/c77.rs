//! The C77 codec. A chunk is a little-endian 32-bit mode word followed by
//! the payload: mode 0 is verbatim, modes 1 to 15 are 16-bit codewords
//! split into a low `mode`-bit count and a high offset field. The encoder
//! supports mode 8 only, which is the only mode the games emit.

use vstd::arithmetic::power2::lemma2_to64;
use vstd::arithmetic::power2::pow2;
use vstd::prelude::*;

use crate::cursor::le16_at;
use crate::cursor::le32_at;
use crate::cursor::Reader;
use crate::sink::decomp_repeat;
use crate::sink::extend_bytes;
use crate::sink::repeat_ok;
use crate::sink::spec_repeat;
use crate::Error;

verus! {

/// The 16-bit codeword stream of modes 1 to 15. A codeword `x` splits into
/// the low `mode` bits `x1` and the rest `x2`: `x1 == 0` copies `x2`
/// literal bytes, anything else copies `x1` bytes from offset `x2 + 1` and
/// then one mandatory literal byte.
pub open spec fn decode_c77_tokens(
    data: Seq<u8>,
    pos: int,
    out: Seq<u8>,
    floor: int,
    mode: nat,
) -> Result<Seq<u8>, Error>
    decreases data.len() - pos,
    when 0 <= pos <= data.len()
    via c77_tokens_dec
{
    if pos == data.len() {
        Ok(out)
    } else if pos + 2 <= data.len() {
        let x = le16_at(data, pos);
        let x1 = x % pow2(mode) as int;
        let x2 = x / pow2(mode) as int;
        if x1 == 0 {
            if pos + 2 + x2 <= data.len() {
                decode_c77_tokens(
                    data,
                    pos + 2 + x2,
                    out + data.subrange(pos + 2, pos + 2 + x2),
                    floor,
                    mode,
                )
            } else {
                Err(Error::Read { pos: (pos + 2) as usize })
            }
        } else {
            if repeat_ok(out.len() as int, floor, x2 + 1) {
                let out1 = spec_repeat(out, x2 + 1, x1 as nat);
                if pos + 3 <= data.len() {
                    decode_c77_tokens(data, pos + 3, out1.push(data[pos + 2]), floor, mode)
                } else {
                    Err(Error::Read { pos: (pos + 2) as usize })
                }
            } else {
                Err(
                    Error::BadRepeat {
                        count: x1 as usize,
                        offset: (x2 + 1) as usize,
                        len: out.len() as usize,
                    },
                )
            }
        }
    } else {
        Err(Error::Read { pos: pos as usize })
    }
}

#[via_fn]
proof fn c77_tokens_dec(data: Seq<u8>, pos: int, out: Seq<u8>, floor: int, mode: nat) {
    vstd::arithmetic::power2::lemma_pow2_pos(mode);
    if 0 <= pos && pos + 2 <= data.len() {
        let x = le16_at(data, pos);
        assert(x / pow2(mode) as int >= 0) by (nonlinear_arith)
            requires
                x >= 0,
                pow2(mode) as int > 0,
        ;
    }
}

/// What a C77 payload appends: the mode word selects verbatim copy
/// (mode 0), the codeword stream (modes 1 to 15), or rejection.
pub open spec fn spec_decompress_inner(data: Seq<u8>, out: Seq<u8>, floor: int) -> Result<
    Seq<u8>,
    Error,
> {
    if data.len() < 4 {
        Err(Error::Read { pos: 0 })
    } else {
        let mode = le32_at(data, 0);
        if mode == 0 {
            Ok(out + data.skip(4))
        } else if mode < 16 {
            decode_c77_tokens(data, 4, out, floor, mode as nat)
        } else {
            Err(Error::Unsupported { mode: mode as u32 })
        }
    }
}

/// What a size-prefixed C77 chunk appends: a 32-bit compressed size, a
/// 32-bit plaintext size, then the payload, whose decoded length must
/// match the declared one.
pub open spec fn spec_decompress(data: Seq<u8>, out: Seq<u8>) -> Result<Seq<u8>, Error> {
    if data.len() < 4 {
        Err(Error::Read { pos: 0 })
    } else if data.len() < 8 {
        Err(Error::Read { pos: 4 })
    } else {
        let in_size = le32_at(data, 0);
        let out_size = le32_at(data, 4);
        if 8 + in_size > data.len() {
            Err(Error::Read { pos: 8 })
        } else {
            match spec_decompress_inner(data.subrange(8, 8 + in_size), out, out.len() as int) {
                Ok(res) => if res.len() == out.len() + out_size {
                    Ok(res)
                } else {
                    Err(Error::Frame)
                },
                Err(e) => Err(e),
            }
        }
    }
}

/// `pow2(e)` as a 16-bit value, for splitting codewords.
fn pow2_u16(e: u32) -> (r: u16)
    requires
        e <= 15,
    ensures
        r == pow2(e as nat),
{
    proof {
        lemma2_to64();
    }
    let mut m: u16 = 1;
    let mut k: u32 = 0;
    while k < e
        invariant
            k <= e,
            e <= 15,
            m == pow2(k as nat),
        decreases e - k,
    {
        proof {
            vstd::arithmetic::power2::lemma_pow2_unfold((k + 1) as nat);
            vstd::arithmetic::power2::lemma_pow2_strictly_increases(k as nat, 15);
            lemma2_to64();
        }
        m = m * 2;
        k = k + 1;
    }
    m
}

/// Decodes a C77 payload (mode word plus token stream), appending to
/// `out`. Returns exactly what [`spec_decompress_inner`] defines.
#[verifier::loop_isolation(false)]
#[verifier::rlimit(50)]
pub fn decompress_inner(data: &[u8], out: &mut Vec<u8>) -> (r: Result<(), Error>)
    ensures
        old(out)@.is_prefix_of(final(out)@),
        match spec_decompress_inner(data@, old(out)@, old(out)@.len() as int) {
            Ok(res) => r == Ok::<(), Error>(()) && final(out)@ == res,
            Err(e) => r == Err::<(), Error>(e),
        },
{
    let ghost floor_i = out@.len() as int;
    let floor: usize = out.len();
    let mut f = Reader::new(data);
    let mode = match f.u32() {
        Ok(v) => v,
        Err(e) => {
            return Err(e);
        },
    };
    if mode == 0 {
        let rest = f.remaining();
        extend_bytes(out, rest);
        proof {
            assert(out@ =~= old(out)@ + data@.skip(4));
        }
        return Ok(());
    }
    if mode >= 16 {
        return Err(Error::Unsupported { mode });
    }
    let m = pow2_u16(mode);
    proof {
        vstd::arithmetic::power2::lemma_pow2_strictly_increases(0, mode as nat);
        lemma2_to64();
    }
    while !f.is_empty()
        invariant
            f.wf(),
            f.data_seq() == data@,
            old(out)@.is_prefix_of(out@),
            m == pow2(mode as nat),
            m >= 2,
            decode_c77_tokens(data@, 4, old(out)@, floor_i, mode as nat) == decode_c77_tokens(
                data@,
                f.position(),
                out@,
                floor_i,
                mode as nat,
            ),
        decreases data@.len() - f.position(),
    {
        let ghost pre_out = out@;
        let x = match f.u16() {
            Ok(v) => v,
            Err(e) => {
                return Err(e);
            },
        };
        let x1 = (x % m) as usize;
        let x2 = (x / m) as usize;
        if x1 == 0 {
            let s = match f.slice(x2) {
                Ok(v) => v,
                Err(e) => {
                    return Err(e);
                },
            };
            extend_bytes(out, s);
        } else {
            match decomp_repeat(out, floor, x1, x2 + 1) {
                Ok(()) => {},
                Err(e) => {
                    return Err(e);
                },
            }
            let lit = match f.u8() {
                Ok(v) => v,
                Err(e) => {
                    return Err(e);
                },
            };
            out.push(lit);
        }
        proof {
            assert(old(out)@ =~= out@.subrange(0, old(out)@.len() as int));
        }
    }
    Ok(())
}

/// The pending literal region `s[last..i]` encoded as mode 8 raw blocks:
/// a `(0, size)` codeword followed by `size` literal bytes, `size` capped
/// at 255.
pub open spec fn raw_blocks(s: Seq<u8>, last: int, i: int) -> Seq<u8>
    decreases i - last,
{
    if last >= i {
        Seq::empty()
    } else {
        let size = if i - last >= 255 {
            255int
        } else {
            i - last
        };
        seq![0u8, size as u8] + s.subrange(last, last + size) + raw_blocks(s, last + size, i)
    }
}

/// The greedy mode 8 encoder, position by position. `last` marks the start
/// of the pending literal region. A pending region of 252 is flushed
/// before matches are considered. A match found by the window-256,
/// length-capped-at-255 finder is emitted when it reaches the threshold —
/// 2 with no pending literals, else 4 — as `(length, offset - 1)` plus the
/// mandatory trailing literal; otherwise the position advances by one.
pub open spec fn c77_enc(s: Seq<u8>, i: int, last: int) -> Seq<u8>
    decreases s.len() - i,
    when 0 <= last <= i <= s.len()
    via c77_enc_dec
{
    if i >= s.len() {
        raw_blocks(s, last, i)
    } else {
        let flushed = (i - last == 252);
        let pre = if flushed {
            raw_blocks(s, last, i)
        } else {
            Seq::<u8>::empty()
        };
        let last1 = if flushed {
            i
        } else {
            last
        };
        let limit = if s.len() - 1 - i >= 255 {
            255int
        } else {
            s.len() - 1 - i
        };
        let lo = if i >= 256 {
            i - 256
        } else {
            0int
        };
        let m = crate::util::best_from(s, lo, i - 1, i, limit);
        let threshold = if i == last1 {
            2int
        } else {
            4int
        };
        if m.1 >= threshold {
            pre + raw_blocks(s, last1, i) + seq![
                m.1 as u8,
                (i - m.0 - 1) as u8,
                s[i + m.1],
            ] + c77_enc(s, i + m.1 + 1, i + m.1 + 1)
        } else {
            pre + c77_enc(s, i + 1, last1)
        }
    }
}

#[via_fn]
proof fn c77_enc_dec(s: Seq<u8>, i: int, last: int) {
    if 0 <= last <= i < s.len() {
        let limit = if s.len() - 1 - i >= 255 {
            255int
        } else {
            s.len() - 1 - i
        };
        let lo = if i >= 256 {
            i - 256
        } else {
            0int
        };
        crate::util::lemma_best_from_greedy(s, lo, i - 1, i, limit);
        let m = crate::util::best_from(s, lo, i - 1, i, limit);
        if m.1 > 0 {
            crate::util::lemma_count_eq_bounds(s, i, m.0, limit);
        }
    }
}

/// Splitting a known suffix of `data`: when the bytes from `pos` on equal
/// `a + b`, the first `a.len()` of them are `a` and the bytes from
/// `pos + a.len()` on are `b`.
proof fn lemma_suffix_split(data: Seq<u8>, pos: int, a: Seq<u8>, b: Seq<u8>)
    requires
        0 <= pos <= data.len(),
        data.subrange(pos, data.len() as int) == a + b,
    ensures
        pos + a.len() + b.len() == data.len(),
        data.subrange(pos + a.len(), data.len() as int) == b,
        forall|k: int| 0 <= k < a.len() ==> data[pos + k] == #[trigger] a[k],
{
    let suf = data.subrange(pos, data.len() as int);
    assert(suf.len() == a.len() + b.len());
    assert forall|k: int| 0 <= k < a.len() implies data[pos + k] == #[trigger] a[k] by {
        assert(suf[k] == (a + b)[k]);
        assert(suf[k] == data[pos + k]);
    }
    assert(data.subrange(pos + a.len(), data.len() as int) =~= b) by {
        assert forall|k: int|
            0 <= k < b.len() implies data.subrange(pos + a.len(), data.len() as int)[k]
                == b[k] by {
            assert(suf[a.len() + k] == (a + b)[a.len() + k]);
            assert(suf[a.len() + k] == data[pos + a.len() + k]);
        }
    }
}

/// Decoding what the mode 8 encoder emits reproduces the encoder's input:
/// from a state where the output mirrors `s` up to `last` and the bytes
/// from `pos` on are the encoding of `s` from position `i` with pending
/// literals `s[last..i]`, the token decoder appends exactly the rest of
/// `s`.
#[verifier::rlimit(100)]
#[verifier::spinoff_prover]
proof fn lemma_c77_enc_decodes(
    s: Seq<u8>,
    i: int,
    last: int,
    out: Seq<u8>,
    floor: int,
    data: Seq<u8>,
    pos: int,
)
    requires
        0 <= last <= i <= s.len(),
        i - last <= 252,
        0 <= floor,
        out.len() == floor + last,
        out.subrange(floor, out.len() as int) == s.subrange(0, last),
        0 <= pos <= data.len(),
        data.subrange(pos, data.len() as int) == c77_enc(s, i, last),
    ensures
        decode_c77_tokens(data, pos, out, floor, 8) == Ok::<Seq<u8>, Error>(
            out + s.subrange(last, s.len() as int),
        ),
    decreases s.len() - i,
{
    lemma2_to64();
    if i >= s.len() {
        if last == i {
            assert(c77_enc(s, i, last) =~= Seq::<u8>::empty());
            assert(pos == data.len());
            assert(out + s.subrange(last, s.len() as int) =~= out);
        } else {
            let size = i - last;
            let blk = seq![0u8, size as u8] + s.subrange(last, last + size);
            assert(raw_blocks(s, last + size, i as int) =~= Seq::<u8>::empty());
            assert(c77_enc(s, i, last) =~= blk);
            lemma_suffix_split(data, pos, seq![0u8, size as u8], s.subrange(last, last + size));
            let x = le16_at(data, pos);
            assert(x == 256 * size);
            assert(x % 256 == 0 && x / 256 == size) by (nonlinear_arith)
                requires
                    x == 256 * size,
                    0 < size <= 252,
            ;
            lemma_suffix_split(
                data,
                pos + 2,
                s.subrange(last, last + size),
                Seq::<u8>::empty(),
            );
            let out1 = out + data.subrange(pos + 2, pos + 2 + size);
            assert(out1 =~= out + s.subrange(last, s.len() as int));
            assert(decode_c77_tokens(data, pos + 2 + size, out1, floor, 8) == Ok::<
                Seq<u8>,
                Error,
            >(out1));
        }
    } else {
        let flushed = (i - last == 252);
        let last1 = if flushed {
            i
        } else {
            last
        };
        let limit = if s.len() - 1 - i >= 255 {
            255int
        } else {
            s.len() - 1 - i
        };
        let lo = if i >= 256 {
            i - 256
        } else {
            0int
        };
        let m = crate::util::best_from(s, lo, i - 1, i, limit);
        crate::util::lemma_best_from_greedy(s, lo, i - 1, i, limit);
        let threshold = if i == last1 {
            2int
        } else {
            4int
        };
        // whatever the branch, first step over the flushed or pending block
        if m.1 >= threshold {
            crate::util::lemma_count_eq_bounds(s, i, m.0, limit);
            crate::util::lemma_count_eq_exact(s, i, m.0, limit);
            let len = m.1;
            let tok = seq![len as u8, (i - m.0 - 1) as u8, s[i + len]];
            let rest = c77_enc(s, i + len + 1, i + len + 1);
            let blocks = raw_blocks(s, last, i);
            assert(raw_blocks(s, i as int, i as int) =~= Seq::<u8>::empty());
            assert(c77_enc(s, i, last) =~= blocks + (tok + rest));
            lemma_suffix_split(data, pos, blocks, tok + rest);
            // step over the single pending block, if any
            let pos1 = pos + blocks.len();
            let out1 = out + s.subrange(last, i as int);
            assert(out1.subrange(floor, out1.len() as int) =~= s.subrange(0, i as int));
            if last < i {
                assert(blocks =~= seq![0u8, (i - last) as u8] + s.subrange(last, i as int));
                assert(data.subrange(pos, data.len() as int) =~= seq![0u8, (i - last) as u8] + (
                s.subrange(last, i as int) + (tok + rest)));
                lemma_suffix_split(data, pos, seq![0u8, (i - last) as u8], s.subrange(
                    last,
                    i as int,
                ) + (tok + rest));
                let x = le16_at(data, pos);
                assert(x == 256 * (i - last));
                assert(x % 256 == 0 && x / 256 == i - last) by (nonlinear_arith)
                    requires
                        x == 256 * (i - last),
                        0 < i - last <= 252,
                ;
                lemma_suffix_split(data, pos + 2, s.subrange(last, i as int), tok + rest);
                assert(out + data.subrange(pos + 2, pos + 2 + (i - last)) =~= out1);
                assert(decode_c77_tokens(data, pos, out, floor, 8) == decode_c77_tokens(
                    data,
                    pos1,
                    out1,
                    floor,
                    8,
                ));
            } else {
                assert(blocks =~= Seq::<u8>::empty());
                assert(out1 =~= out);
            }
            // the match token
            lemma_suffix_split(data, pos1, tok, rest);
            let x = le16_at(data, pos1);
            assert(x == len + 256 * (i - m.0 - 1));
            assert(x % 256 == len && x / 256 == i - m.0 - 1) by (nonlinear_arith)
                requires
                    x == len + 256 * (i - m.0 - 1),
                    2 <= len < 256,
                    0 <= i - m.0 - 1 < 256,
            ;
            assert(repeat_ok(out1.len() as int, floor, (i - m.0 - 1) + 1));
            assert forall|t: int| 0 <= t < len implies s[m.0 + t] == #[trigger] s[i + t] by {
                assert(s[i + t] == s[m.0 + t]);
            }
            crate::sink::lemma_repeat_of_match(out1, floor, s, i, m.0, len as nat);
            let out2 = spec_repeat(out1, i - m.0, len as nat);
            let out3 = out2.push(data[pos1 + 2]);
            assert(data[pos1 + 2] == s[i + len]);
            assert(out3.subrange(floor, out3.len() as int) =~= s.subrange(0, i + len + 1));
            lemma_c77_enc_decodes(s, i + len + 1, i + len + 1, out3, floor, data, pos1 + 3);
            assert(out3 + s.subrange(i + len + 1, s.len() as int) =~= out + s.subrange(
                last,
                s.len() as int,
            ));
        } else {
            if flushed {
                let blk = seq![0u8, 252u8] + s.subrange(last, i as int);
                let rest = c77_enc(s, i + 1, i as int);
                assert(raw_blocks(s, i as int, i as int) =~= Seq::<u8>::empty());
                assert(raw_blocks(s, last, i as int) =~= blk);
                assert(c77_enc(s, i, last) =~= blk + rest);
                assert(data.subrange(pos, data.len() as int) =~= seq![0u8, 252u8] + (s.subrange(
                    last,
                    i as int,
                ) + rest));
                lemma_suffix_split(data, pos, seq![0u8, 252u8], s.subrange(last, i as int) + rest);
                let x = le16_at(data, pos);
                assert(x == 256 * 252);
                lemma_suffix_split(data, pos + 2, s.subrange(last, i as int), rest);
                let out1 = out + data.subrange(pos + 2, pos + 2 + 252);
                assert(out1 =~= out + s.subrange(last, i as int));
                assert(out1.subrange(floor, out1.len() as int) =~= s.subrange(0, i as int));
                lemma_c77_enc_decodes(s, i + 1, i as int, out1, floor, data, pos + 2 + 252);
                assert(out1 + s.subrange(i as int, s.len() as int) =~= out + s.subrange(
                    last,
                    s.len() as int,
                ));
            } else {
                lemma_c77_enc_decodes(s, i + 1, last, out, floor, data, pos);
            }
        }
    }
}

/// Decoding the mode 8 encoder's token stream appends exactly the
/// encoder's input: the round trip at the heart of the codec, for every
/// byte sequence and every starting output.
pub proof fn lemma_c77_round_trip(s: Seq<u8>, out: Seq<u8>)
    ensures
        decode_c77_tokens(c77_enc(s, 0, 0), 0, out, out.len() as int, 8) == Ok::<Seq<u8>, Error>(
            out + s,
        ),
{
    let data = c77_enc(s, 0, 0);
    assert(data.subrange(0, data.len() as int) =~= data);
    assert(out.subrange(out.len() as int, out.len() as int) =~= s.subrange(0, 0));
    lemma_c77_enc_decodes(s, 0, 0, out, out.len() as int, data, 0);
    assert(s.subrange(0, s.len() as int) =~= s);
}

/// The round trip through a whole payload: a mode word of 8 followed by
/// the encoder's tokens decodes to exactly the encoder's input.
pub proof fn lemma_c77_payload_round_trip(s: Seq<u8>, out: Seq<u8>)
    ensures
        spec_decompress_inner(seq![8u8, 0u8, 0u8, 0u8] + c77_enc(s, 0, 0), out, out.len() as int)
            == Ok::<Seq<u8>, Error>(out + s),
{
    let hdr = seq![8u8, 0u8, 0u8, 0u8];
    let data = hdr + c77_enc(s, 0, 0);
    assert(data[0] == 8 && data[1] == 0 && data[2] == 0 && data[3] == 0);
    assert(le32_at(data, 0) == 8);
    assert(data.subrange(4, data.len() as int) =~= c77_enc(s, 0, 0));
    assert(out.subrange(out.len() as int, out.len() as int) =~= s.subrange(0, 0));
    lemma_c77_enc_decodes(s, 0, 0, out, out.len() as int, data, 4);
    assert(s.subrange(0, s.len() as int) =~= s);
}

/// Flushes the pending literal region `input[last..i]` as raw blocks.
#[verifier::loop_isolation(false)]
fn flush_raw(input: &[u8], last: usize, i: usize, out: &mut Vec<u8>)
    requires
        last <= i <= input@.len(),
    ensures
        final(out)@ == old(out)@ + raw_blocks(input@, last as int, i as int),
{
    let mut cur: usize = last;
    while cur < i
        invariant
            last <= cur <= i,
            old(out)@ + raw_blocks(input@, last as int, i as int) == out@ + raw_blocks(
                input@,
                cur as int,
                i as int,
            ),
        decreases i - cur,
    {
        let ghost pre = out@;
        let size = if i - cur >= 255 {
            255
        } else {
            i - cur
        };
        out.push(0);
        out.push(size as u8);
        let s = vstd::slice::slice_subrange(input, cur, cur + size);
        crate::sink::extend_bytes(out, s);
        proof {
            assert(out@ =~= pre + (seq![0u8, size as u8] + input@.subrange(
                cur as int,
                cur + size,
            )));
            assert(pre + (seq![0u8, size as u8] + input@.subrange(cur as int, cur + size))
                + raw_blocks(input@, cur + size, i as int) =~= pre + ((seq![0u8, size as u8]
                + input@.subrange(cur as int, cur + size)) + raw_blocks(
                input@,
                cur + size,
                i as int,
            )));
        }
        cur = cur + size;
    }
    proof {
        assert(old(out)@ + raw_blocks(input@, last as int, i as int) =~= out@);
    }
}

/// Compresses `input` as a mode 8 token stream, appending to `out`. The
/// caller frames the stream and writes the mode word. The emitted bytes
/// are exactly what [`c77_enc`] defines.
#[verifier::loop_isolation(false)]
#[verifier::rlimit(100)]
pub fn compress_inner(input: &[u8], out: &mut Vec<u8>)
    ensures
        final(out)@ == old(out)@ + c77_enc(input@, 0, 0),
{
    let mut last: usize = 0;
    let mut i: usize = 0;
    while i < input.len()
        invariant
            last <= i <= input@.len(),
            i - last <= 252,
            old(out)@ + c77_enc(input@, 0, 0) == out@ + c77_enc(input@, i as int, last as int),
        decreases input@.len() - i,
    {
        let ghost pre_out = out@;
        let ghost i0 = i as int;
        let ghost last0 = last as int;
        if i - last == 252 {
            flush_raw(input, last, i, out);
            last = i;
        }
        let limit = if input.len() - 1 - i >= 255 {
            255
        } else {
            input.len() - 1 - i
        };
        let m = crate::util::find_match(input, i, 256, limit);
        proof {
            crate::util::lemma_best_from_greedy(
                input@,
                if i >= 256 {
                    i - 256
                } else {
                    0int
                },
                i - 1,
                i as int,
                limit as int,
            );
            if m.1 > 0 {
                crate::util::lemma_count_eq_bounds(input@, i as int, m.0 as int, limit as int);
            }
        }
        let threshold: usize = if i == last {
            2
        } else {
            4
        };
        if m.1 >= threshold {
            flush_raw(input, last, i, out);
            out.push(m.1 as u8);
            out.push((i - m.0 - 1) as u8);
            out.push(input[i + m.1]);
            i = i + m.1 + 1;
            last = i;
        } else {
            i = i + 1;
        }
        proof {
            assert(pre_out + c77_enc(input@, i0, last0) =~= out@ + c77_enc(
                input@,
                i as int,
                last as int,
            ));
        }
    }
    flush_raw(input, last, i, out);
    proof {
        assert(final(out)@ =~= old(out)@ + c77_enc(input@, 0, 0));
    }
}

/// Decodes one size-prefixed C77 chunk, appending to `out`, and returns
/// the number of input bytes consumed. Success, the appended bytes, and
/// every error are exactly as [`spec_decompress`] defines.
pub fn decompress(data: &[u8], out: &mut Vec<u8>) -> (r: Result<usize, Error>)
    ensures
        old(out)@.is_prefix_of(final(out)@),
        match spec_decompress(data@, old(out)@) {
            Ok(res) => r == Ok::<usize, Error>((8 + le32_at(data@, 0)) as usize) && final(out)@
                == res,
            Err(e) => r == Err::<usize, Error>(e),
        },
{
    let mut f = Reader::new(data);
    let in_size = match f.u32() {
        Ok(v) => v,
        Err(e) => {
            return Err(e);
        },
    };
    let out_size = match f.u32() {
        Ok(v) => v,
        Err(e) => {
            return Err(e);
        },
    };
    let floor: usize = out.len();
    let chunk = match f.slice(in_size as usize) {
        Ok(v) => v,
        Err(e) => {
            return Err(e);
        },
    };
    match decompress_inner(chunk, out) {
        Ok(()) => {},
        Err(e) => {
            return Err(e);
        },
    }
    if out.len() - floor != out_size as usize {
        return Err(Error::Frame);
    }
    Ok(f.pos())
}

} // verus!
