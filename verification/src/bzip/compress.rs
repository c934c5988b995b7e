//! BZip encoding. The mode 1 encoder is greedy over the byte-aligned
//! token set: literal blocks and 13-bit-offset copies. The mode 2 encoder
//! is greedy over the bit-aligned token set, packing control bits into
//! 16-bit words reserved in the stream ahead of their byte payloads.
//! Either encoder's output decodes back to its input.

use vstd::arithmetic::power2::lemma2_to64;
use vstd::arithmetic::power2::lemma_pow2_adds;
use vstd::arithmetic::power2::pow2;
use vstd::prelude::*;

use crate::sink::extend_bytes;
use crate::sink::repeat_ok;
use crate::sink::spec_repeat;
use crate::util::best_from;
use crate::util::find_match;
use crate::util::lemma_best_from_greedy;
use crate::util::lemma_count_eq_bounds;
use crate::util::lemma_count_eq_exact;
use crate::Error;

verus! {

/// Which BZip mode to compress with.
#[derive(Debug, Clone, Copy, PartialEq, Eq, Structural)]
pub enum CompressMode {
    Mode1,
    Mode2,
}

/// The pending literal region `s[last..i]` as a mode 1 literal block: a
/// one-byte header for up to 0x1F bytes, a two-byte header up to 0x1FFF.
pub open spec fn raw1_block(s: Seq<u8>, last: int, i: int) -> Seq<u8> {
    if last >= i {
        Seq::empty()
    } else if i - last <= 0x1F {
        seq![(i - last) as u8] + s.subrange(last, i)
    } else {
        seq![(0x20 + (i - last) / 0x100) as u8, ((i - last) % 0x100) as u8] + s.subrange(last, i)
    }
}

/// The greedy mode 1 encoder, position by position. `last` marks the
/// pending literal region, flushed when it reaches the two-byte header
/// cap. A match of at least 4 within the 13-bit window is emitted as a
/// `1nn ooooo` copy token; otherwise the position advances by one.
pub open spec fn enc1(s: Seq<u8>, i: int, last: int) -> Seq<u8>
    decreases s.len() - i,
    when 0 <= last <= i <= s.len() && i - last <= 0x1FFF
    via enc1_dec
{
    if i >= s.len() {
        raw1_block(s, last, i)
    } else {
        let flushed = (i - last == 0x1FFF);
        let pre = if flushed {
            raw1_block(s, last, i)
        } else {
            Seq::<u8>::empty()
        };
        let last1 = if flushed {
            i
        } else {
            last
        };
        let limit = if s.len() - i >= 7 {
            7int
        } else {
            s.len() - i
        };
        let lo = if i >= 0x1FFF {
            i - 0x1FFF
        } else {
            0int
        };
        let m = best_from(s, lo, i - 1, i, limit);
        if m.1 >= 4 {
            let o = i - m.0;
            pre + raw1_block(s, last1, i) + seq![
                (0x80 + (m.1 - 4) * 0x20 + o / 0x100) as u8,
                (o % 0x100) as u8,
            ] + enc1(s, i + m.1, i + m.1)
        } else {
            pre + enc1(s, i + 1, last1)
        }
    }
}

#[via_fn]
proof fn enc1_dec(s: Seq<u8>, i: int, last: int) {
    if 0 <= last <= i < s.len() {
        let limit = if s.len() - i >= 7 {
            7int
        } else {
            s.len() - i
        };
        let lo = if i >= 0x1FFF {
            i - 0x1FFF
        } else {
            0int
        };
        lemma_best_from_greedy(s, lo, i - 1, i, limit);
        let m = best_from(s, lo, i - 1, i, limit);
        if m.1 > 0 {
            lemma_count_eq_bounds(s, i, m.0, limit);
        }
    }
}

/// Splitting a known suffix of `data`: when the bytes from `pos` on equal
/// `a + b`, the first `a.len()` of them are `a` and the bytes from
/// `pos + a.len()` on are `b`.
proof fn lemma_suffix_split(data: Seq<u8>, pos: int, a: Seq<u8>, b: Seq<u8>)
    requires
        0 <= pos <= data.len(),
        data.subrange(pos, data.len() as int) == a + b,
    ensures
        pos + a.len() + b.len() == data.len(),
        data.subrange(pos + a.len(), data.len() as int) == b,
        forall|k: int| 0 <= k < a.len() ==> data[pos + k] == #[trigger] a[k],
{
    let suf = data.subrange(pos, data.len() as int);
    assert(suf.len() == a.len() + b.len());
    assert forall|k: int| 0 <= k < a.len() implies data[pos + k] == #[trigger] a[k] by {
        assert(suf[k] == (a + b)[k]);
        assert(suf[k] == data[pos + k]);
    }
    assert(data.subrange(pos + a.len(), data.len() as int) =~= b) by {
        assert forall|k: int|
            0 <= k < b.len() implies data.subrange(pos + a.len(), data.len() as int)[k]
                == b[k] by {
            assert(suf[a.len() + k] == (a + b)[a.len() + k]);
            assert(suf[a.len() + k] == data[pos + a.len() + k]);
        }
    }
}

/// Stepping the mode 1 decoder over one literal block: it consumes the
/// block and appends the block's bytes, whatever the last-offset register.
proof fn lemma_raw1_block_decodes(
    s: Seq<u8>,
    last: int,
    i: int,
    out: Seq<u8>,
    floor: int,
    data: Seq<u8>,
    pos: int,
    last_o: int,
)
    requires
        0 <= last < i <= s.len(),
        i - last <= 0x1FFF,
        0 <= pos <= data.len(),
        data.subrange(pos, data.len() as int) == raw1_block(s, last, i) + data.subrange(
            pos + raw1_block(s, last, i).len(),
            data.len() as int,
        ),
    ensures
        crate::bzip::decompress::decode1(data, pos, out, floor, last_o)
            == crate::bzip::decompress::decode1(
            data,
            pos + raw1_block(s, last, i).len(),
            out + s.subrange(last, i),
            floor,
            last_o,
        ),
{
    let n = i - last;
    let blk = raw1_block(s, last, i);
    if n <= 0x1F {
        assert(blk =~= seq![n as u8] + s.subrange(last, i));
        assert(data.subrange(pos, data.len() as int) =~= seq![n as u8] + (s.subrange(last, i)
            + data.subrange(pos + blk.len(), data.len() as int)));
        lemma_suffix_split(
            data,
            pos,
            seq![n as u8],
            s.subrange(last, i) + data.subrange(pos + blk.len(), data.len() as int),
        );
        lemma_suffix_split(
            data,
            pos + 1,
            s.subrange(last, i),
            data.subrange(pos + blk.len(), data.len() as int),
        );
        assert(data[pos + 0] == seq![n as u8][0]);
        assert(data[pos] == n as u8);
        assert(out + data.subrange(pos + 1, pos + 1 + n) =~= out + s.subrange(last, i));
    } else {
        let hdr = seq![(0x20 + n / 0x100) as u8, (n % 0x100) as u8];
        assert(blk =~= hdr + s.subrange(last, i));
        assert(data.subrange(pos, data.len() as int) =~= hdr + (s.subrange(last, i)
            + data.subrange(pos + blk.len(), data.len() as int)));
        lemma_suffix_split(
            data,
            pos,
            hdr,
            s.subrange(last, i) + data.subrange(pos + blk.len(), data.len() as int),
        );
        lemma_suffix_split(
            data,
            pos + 2,
            s.subrange(last, i),
            data.subrange(pos + blk.len(), data.len() as int),
        );
        assert(data[pos + 0] == hdr[0]);
        assert(data[pos + 1] == hdr[1]);
        let b = data[pos];
        assert(b == (0x20 + n / 0x100) as u8);
        assert(0x20 <= n / 0x100 * 0x100 + n % 0x100 && n / 0x100 <= 0x1F && 0x20 + n / 0x100
            < 0x40 && (0x20 + n / 0x100) - 0x20 == n / 0x100) by (nonlinear_arith)
            requires
                0x20 <= n <= 0x1FFF,
        ;
        assert((b - 0x20) * 0x100 + data[pos + 1] == n) by (nonlinear_arith)
            requires
                b == 0x20 + n / 0x100,
                data[pos + 1] == n % 0x100,
                0x20 <= n <= 0x1FFF,
        ;
        assert(out + data.subrange(pos + 2, pos + 2 + n) =~= out + s.subrange(last, i));
    }
}

/// Decoding what the mode 1 encoder emits reproduces the encoder's input,
/// whatever the decoder's last-offset register holds.
#[verifier::rlimit(100)]
#[verifier::spinoff_prover]
proof fn lemma_enc1_decodes(
    s: Seq<u8>,
    i: int,
    last: int,
    out: Seq<u8>,
    floor: int,
    data: Seq<u8>,
    pos: int,
    last_o: int,
)
    requires
        0 <= last <= i <= s.len(),
        i - last <= 0x1FFF,
        0 <= floor,
        out.len() == floor + last,
        out.subrange(floor, out.len() as int) == s.subrange(0, last),
        0 <= pos <= data.len(),
        data.subrange(pos, data.len() as int) == enc1(s, i, last),
    ensures
        crate::bzip::decompress::decode1(data, pos, out, floor, last_o) == Ok::<Seq<u8>, Error>(
            out + s.subrange(last, s.len() as int),
        ),
    decreases s.len() - i,
{
    if i >= s.len() {
        if last == i {
            assert(enc1(s, i, last) =~= Seq::<u8>::empty());
            assert(pos == data.len());
            assert(out + s.subrange(last, s.len() as int) =~= out);
        } else {
            let blk = raw1_block(s, last, i);
            assert(enc1(s, i, last) == blk);
            assert(data.subrange(pos, data.len() as int) =~= blk + data.subrange(
                pos + blk.len(),
                data.len() as int,
            ));
            lemma_raw1_block_decodes(s, last, i, out, floor, data, pos, last_o);
            assert(pos + blk.len() == data.len());
            assert(out + s.subrange(last, i) + s.subrange(i, s.len() as int) =~= out + s.subrange(
                last,
                s.len() as int,
            ));
        }
    } else {
        let flushed = (i - last == 0x1FFF);
        let last1 = if flushed {
            i
        } else {
            last
        };
        let limit = if s.len() - i >= 7 {
            7int
        } else {
            s.len() - i
        };
        let lo = if i >= 0x1FFF {
            i - 0x1FFF
        } else {
            0int
        };
        let m = best_from(s, lo, i - 1, i, limit);
        lemma_best_from_greedy(s, lo, i - 1, i, limit);
        if m.1 >= 4 {
            lemma_count_eq_bounds(s, i, m.0, limit);
            lemma_count_eq_exact(s, i, m.0, limit);
            let o = i - m.0;
            let tok = seq![(0x80 + (m.1 - 4) * 0x20 + o / 0x100) as u8, (o % 0x100) as u8];
            let rest = enc1(s, i + m.1, i + m.1);
            let blk = raw1_block(s, last, i);
            assert(enc1(s, i, last) =~= blk + (tok + rest));
            lemma_suffix_split(data, pos, blk, tok + rest);
            let pos1 = pos + blk.len();
            let out1 = out + s.subrange(last, i);
            assert(out1.subrange(floor, out1.len() as int) =~= s.subrange(0, i));
            if last < i {
                assert(data.subrange(pos, data.len() as int) =~= blk + data.subrange(
                    pos + blk.len(),
                    data.len() as int,
                ));
                lemma_raw1_block_decodes(s, last, i, out, floor, data, pos, last_o);
            } else {
                assert(blk =~= Seq::<u8>::empty());
                assert(out1 =~= out);
            }
            // the copy token
            lemma_suffix_split(data, pos1, tok, rest);
            assert(data[pos1 + 0] == tok[0]);
            assert(data[pos1 + 1] == tok[1]);
            let b = data[pos1];
            assert(b == (0x80 + (m.1 - 4) * 0x20 + o / 0x100) as u8);
            assert(1 <= o <= 0x1FFF);
            assert({
                &&& 0x80 + (m.1 - 4) * 0x20 + o / 0x100 < 0x100
                &&& 0x80 + (m.1 - 4) * 0x20 + o / 0x100 >= 0x80
                &&& ((0x80 + (m.1 - 4) * 0x20 + o / 0x100) - 0x80) / 0x20 == m.1 - 4
                &&& (0x80 + (m.1 - 4) * 0x20 + o / 0x100) % 0x20 == o / 0x100
                &&& (o / 0x100) * 0x100 + o % 0x100 == o
            }) by (nonlinear_arith)
                requires
                    4 <= m.1 <= 7,
                    1 <= o <= 0x1FFF,
            ;
            assert(repeat_ok(out1.len() as int, floor, o));
            assert forall|t: int| 0 <= t < m.1 implies s[m.0 + t] == #[trigger] s[i + t] by {
                assert(s[i + t] == s[m.0 + t]);
            }
            crate::sink::lemma_repeat_of_match(out1, floor, s, i, m.0, m.1 as nat);
            let out2 = spec_repeat(out1, o, m.1 as nat);
            assert(out2.subrange(floor, out2.len() as int) =~= s.subrange(0, i + m.1));
            lemma_enc1_decodes(s, i + m.1, i + m.1, out2, floor, data, pos1 + 2, o);
            assert(out2 + s.subrange(i + m.1, s.len() as int) =~= out + s.subrange(
                last,
                s.len() as int,
            ));
        } else {
            if flushed {
                let blk = raw1_block(s, last, i);
                let rest = enc1(s, i + 1, i);
                assert(enc1(s, i, last) =~= blk + rest);
                lemma_suffix_split(data, pos, blk, rest);
                assert(data.subrange(pos, data.len() as int) =~= blk + data.subrange(
                    pos + blk.len(),
                    data.len() as int,
                ));
                lemma_raw1_block_decodes(s, last, i, out, floor, data, pos, last_o);
                let out1 = out + s.subrange(last, i);
                assert(out1.subrange(floor, out1.len() as int) =~= s.subrange(0, i));
                lemma_enc1_decodes(s, i + 1, i, out1, floor, data, pos + blk.len(), last_o);
                assert(out1 + s.subrange(i, s.len() as int) =~= out + s.subrange(
                    last,
                    s.len() as int,
                ));
            } else {
                lemma_enc1_decodes(s, i + 1, last, out, floor, data, pos, last_o);
            }
        }
    }
}

/// A mode 1 stream is never mistaken for mode 2: its first byte — a
/// literal block header or a copy token — is never zero.
proof fn lemma_enc1_first_nonzero(s: Seq<u8>, i: int, last: int)
    requires
        0 <= last <= i <= s.len(),
        i - last <= 0x1FFF,
    ensures
        enc1(s, i, last).len() > 0 ==> enc1(s, i, last)[0] != 0,
    decreases s.len() - i,
{
    if i >= s.len() {
        if last < i {
            let blk = raw1_block(s, last, i);
            if i - last <= 0x1F {
                assert(blk[0] == seq![(i - last) as u8][0]);
            } else {
                assert(blk[0] == seq![(0x20 + (i - last) / 0x100) as u8, ((i - last)
                    % 0x100) as u8][0]);
            }
        }
    } else {
        let flushed = (i - last == 0x1FFF);
        let last1 = if flushed {
            i
        } else {
            last
        };
        let limit = if s.len() - i >= 7 {
            7int
        } else {
            s.len() - i
        };
        let lo = if i >= 0x1FFF {
            i - 0x1FFF
        } else {
            0int
        };
        let m = best_from(s, lo, i - 1, i, limit);
        lemma_best_from_greedy(s, lo, i - 1, i, limit);
        if m.1 >= 4 {
            lemma_count_eq_bounds(s, i, m.0, limit);
            let o = i - m.0;
            let tok = seq![(0x80 + (m.1 - 4) * 0x20 + o / 0x100) as u8, (o % 0x100) as u8];
            let blk = raw1_block(s, last, i);
            let e = enc1(s, i, last);
            assert(e =~= blk + (tok + enc1(s, i + m.1, i + m.1)));
            assert(0x80 + (m.1 - 4) * 0x20 + o / 0x100 < 0x100 && 0x80 + (m.1 - 4) * 0x20 + o
                / 0x100 >= 0x80) by (nonlinear_arith)
                requires
                    4 <= m.1 <= 7,
                    1 <= o <= 0x1FFF,
            ;
            if last < i {
                if i - last <= 0x1F {
                    assert(blk[0] == seq![(i - last) as u8][0]);
                } else {
                    assert(blk[0] == seq![(0x20 + (i - last) / 0x100) as u8, ((i - last)
                        % 0x100) as u8][0]);
                }
                assert(e[0] == blk[0]);
            } else {
                assert(blk =~= Seq::<u8>::empty());
                assert(e[0] == tok[0]);
            }
        } else {
            if flushed {
                let blk = raw1_block(s, last, i);
                let e = enc1(s, i, last);
                assert(e =~= blk + enc1(s, i + 1, i));
                assert(blk[0] == seq![(0x20 + (i - last) / 0x100) as u8, ((i - last)
                    % 0x100) as u8][0]);
                assert(e[0] == blk[0]);
            } else {
                lemma_enc1_first_nonzero(s, i + 1, last);
                assert(enc1(s, i, last) == enc1(s, i + 1, last));
            }
        }
    }
}

/// The mode 1 round trip: decompressing what the mode 1 encoder produced
/// appends exactly the encoder's input, for every byte sequence and every
/// starting output buffer.
pub proof fn lemma_mode1_round_trip(s: Seq<u8>, out: Seq<u8>)
    ensures
        crate::bzip::decompress::spec_decompress(enc1(s, 0, 0), out) == Ok::<Seq<u8>, Error>(
            out + s,
        ),
{
    let data = enc1(s, 0, 0);
    lemma_enc1_first_nonzero(s, 0, 0);
    assert(data.subrange(0, data.len() as int) =~= data);
    assert(out.subrange(out.len() as int, out.len() as int) =~= s.subrange(0, 0));
    lemma_enc1_decodes(s, 0, 0, out, out.len() as int, data, 0, 0);
    assert(out + s.subrange(0, s.len() as int) =~= out + s);
}

/// Emits the pending literal region `input[last..i]` as one mode 1
/// literal block.
fn flush1(input: &[u8], last: usize, i: usize, out: &mut Vec<u8>)
    requires
        last <= i <= input@.len(),
        i - last <= 0x1FFF,
    ensures
        final(out)@ == old(out)@ + raw1_block(input@, last as int, i as int),
{
    let ghost pre = out@;
    if last >= i {
        proof {
            assert(out@ =~= pre + raw1_block(input@, last as int, i as int));
        }
        return ;
    }
    let n = i - last;
    if n <= 0x1F {
        out.push(n as u8);
    } else {
        out.push((0x20 + n / 0x100) as u8);
        out.push((n % 0x100) as u8);
    }
    let s = vstd::slice::slice_subrange(input, last, i);
    extend_bytes(out, s);
    proof {
        assert(out@ =~= pre + raw1_block(input@, last as int, i as int));
    }
}

/// Compresses `input` with mode 1, appending to `out`. The emitted bytes
/// are exactly what [`enc1`] defines.
#[verifier::loop_isolation(false)]
#[verifier::rlimit(100)]
fn compress_mode1(input: &[u8], out: &mut Vec<u8>)
    ensures
        final(out)@ == old(out)@ + enc1(input@, 0, 0),
{
    let mut last: usize = 0;
    let mut i: usize = 0;
    while i < input.len()
        invariant
            last <= i <= input@.len(),
            i - last <= 0x1FFF,
            old(out)@ + enc1(input@, 0, 0) == out@ + enc1(input@, i as int, last as int),
        decreases input@.len() - i,
    {
        let ghost pre_out = out@;
        let ghost i0 = i as int;
        let ghost last0 = last as int;
        if i - last == 0x1FFF {
            flush1(input, last, i, out);
            last = i;
        }
        let limit = if input.len() - i >= 7 {
            7
        } else {
            input.len() - i
        };
        let m = find_match(input, i, 0x1FFF, limit);
        proof {
            lemma_best_from_greedy(
                input@,
                if i >= 0x1FFF {
                    i - 0x1FFF
                } else {
                    0int
                },
                i - 1,
                i as int,
                limit as int,
            );
            if m.1 > 0 {
                lemma_count_eq_bounds(input@, i as int, m.0 as int, limit as int);
            }
        }
        if m.1 >= 4 {
            flush1(input, last, i, out);
            let o = i - m.0;
            out.push((0x80 + (m.1 - 4) * 0x20 + o / 0x100) as u8);
            out.push((o % 0x100) as u8);
            i = i + m.1;
            last = i;
        } else {
            i = i + 1;
        }
        proof {
            assert(pre_out + enc1(input@, i0, last0) =~= out@ + enc1(
                input@,
                i as int,
                last as int,
            ));
        }
    }
    flush1(input, last, i, out);
    proof {
        assert(final(out)@ =~= old(out)@ + enc1(input@, 0, 0));
    }
}

/// The bit writer's state: the bytes emitted so far, the index of the
/// 16-bit control word currently being filled, and how many of its bits
/// are used. Control bits go into the current word, least significant
/// first; payload bytes are appended after it; a full word causes a fresh
/// zeroed word to be reserved at the end, exactly where the bit reader
/// will look for its next refill.
pub ghost struct WState {
    pub buf: Seq<u8>,
    pub ctrl: int,
    pub used: int,
}

/// One control bit: reserve a fresh word when the current one is full,
/// then set bit `used` of the little-endian word at `ctrl`.
pub open spec fn swbit(w: WState, b: bool) -> WState {
    let w1 = if w.used == 16 {
        WState { buf: w.buf + seq![0u8, 0u8], ctrl: w.buf.len() as int, used: 0 }
    } else {
        w
    };
    if b {
        let idx = w1.ctrl + w1.used / 8;
        WState {
            buf: w1.buf.update(idx, (w1.buf[idx] + pow2((w1.used % 8) as nat)) as u8),
            ctrl: w1.ctrl,
            used: w1.used + 1,
        }
    } else {
        WState { buf: w1.buf, ctrl: w1.ctrl, used: w1.used + 1 }
    }
}

/// One payload byte, appended after the control word.
pub open spec fn swbyte(w: WState, v: u8) -> WState {
    WState { buf: w.buf.push(v), ctrl: w.ctrl, used: w.used }
}

/// The `k` low bits of `hi`, written most significant first.
pub open spec fn swbits_k(w: WState, k: nat, hi: int) -> WState
    decreases k,
{
    if k == 0 {
        w
    } else {
        swbits_k(swbit(w, hi / pow2((k - 1) as nat) as int % 2 == 1), (k - 1) as nat, hi)
    }
}

/// An `n`-bit value, `n` at most 13: `n mod 8` bits MSB-first, then the
/// low byte if `n` spans one — mirroring how the bit reader reassembles
/// wide fields.
pub open spec fn swbits(w: WState, n: nat, v: int) -> WState {
    let k = n % 8;
    let m = n / 8;
    let w1 = swbits_k(w, k, v / pow2(8 * m) as int);
    if m == 1 {
        swbyte(w1, (v % 256) as u8)
    } else {
        w1
    }
}

/// The shared count code: unary prefixes for 2 to 5, then `6 + 3 bits`,
/// then `14 + 8 bits`.
pub open spec fn swcount(w: WState, n: int) -> WState {
    if n == 2 {
        swbit(w, true)
    } else if n == 3 {
        swbit(swbit(w, false), true)
    } else if n == 4 {
        swbit(swbit(swbit(w, false), false), true)
    } else if n == 5 {
        swbit(swbit(swbit(swbit(w, false), false), false), true)
    } else if n <= 13 {
        swbits(swbit(swbit(swbit(swbit(swbit(w, false), false), false), false), true), 3, n - 6)
    } else {
        swbits(
            swbit(swbit(swbit(swbit(swbit(w, false), false), false), false), false),
            8,
            n - 14,
        )
    }
}

/// The greedy mode 2 encoder, position by position. A match of at least 2
/// within the 13-bit window becomes a copy token — an 8-bit offset when it
/// fits, else a 13-bit one — followed by the count code; otherwise one
/// literal byte is emitted under a zero control bit. The end marker is the
/// 13-bit zero.
pub open spec fn enc2(s: Seq<u8>, i: int, w: WState) -> WState
    decreases s.len() - i,
    when 0 <= i <= s.len()
    via enc2_dec
{
    if i >= s.len() {
        swbits(swbit(swbit(w, true), true), 13, 0)
    } else {
        let limit = if s.len() - i >= 269 {
            269int
        } else {
            s.len() - i
        };
        let lo = if i >= 0x1FFF {
            i - 0x1FFF
        } else {
            0int
        };
        let m = best_from(s, lo, i - 1, i, limit);
        if m.1 >= 2 {
            let o = i - m.0;
            let w1 = swbit(w, true);
            let w2 = if o <= 0xFF {
                swbits(swbit(w1, false), 8, o)
            } else {
                swbits(swbit(w1, true), 13, o)
            };
            enc2(s, i + m.1, swcount(w2, m.1))
        } else {
            enc2(s, i + 1, swbyte(swbit(w, false), s[i]))
        }
    }
}

#[via_fn]
proof fn enc2_dec(s: Seq<u8>, i: int, w: WState) {
    if 0 <= i < s.len() {
        let limit = if s.len() - i >= 269 {
            269int
        } else {
            s.len() - i
        };
        let lo = if i >= 0x1FFF {
            i - 0x1FFF
        } else {
            0int
        };
        lemma_best_from_greedy(s, lo, i - 1, i, limit);
        let m = best_from(s, lo, i - 1, i, limit);
        if m.1 > 0 {
            lemma_count_eq_bounds(s, i, m.0, limit);
        }
    }
}

/// A whole mode 2 stream: the first word is primed with the zero mode
/// discriminator in its low byte, so control bits start at bit 8.
pub open spec fn enc2_full(s: Seq<u8>) -> Seq<u8> {
    enc2(s, 0, WState { buf: seq![0u8, 0u8], ctrl: 0, used: 8 }).buf
}

/// The bit writer proper.
struct W2 {
    buf: Vec<u8>,
    ctrl: usize,
    used: usize,
}

impl W2 {
    spec fn wstate(&self) -> WState {
        WState { buf: self.buf@, ctrl: self.ctrl as int, used: self.used as int }
    }

    /// The control word's unwritten bits are still zero, so setting a bit
    /// is an addition.
    spec fn wf(&self) -> bool {
        &&& self.ctrl + 2 <= self.buf@.len()
        &&& self.used <= 16
        &&& self.buf@[self.ctrl as int] + 256 * self.buf@[self.ctrl + 1] < pow2(self.used as nat)
    }

    fn new() -> (r: W2)
        ensures
            r.wf(),
            r.wstate() == (WState { buf: seq![0u8, 0u8], ctrl: 0, used: 8 }),
    {
        let mut buf = Vec::new();
        buf.push(0);
        buf.push(0);
        proof {
            lemma2_to64();
            assert(buf@ =~= seq![0u8, 0u8]);
        }
        W2 { buf, ctrl: 0, used: 8 }
    }

    fn bit(&mut self, b: bool)
        requires
            old(self).wf(),
        ensures
            final(self).wf(),
            final(self).wstate() == swbit(old(self).wstate(), b),
    {
        proof {
            lemma2_to64();
        }
        if self.used == 16 {
            self.ctrl = self.buf.len();
            self.buf.push(0);
            self.buf.push(0);
            self.used = 0;
            proof {
                assert(self.buf@ =~= old(self).buf@ + seq![0u8, 0u8]);
            }
        }
        let ghost mid = *self;
        if b {
            let _ln = self.buf.len();
            let idx = self.ctrl + self.used / 8;
            proof {
                lemma_pow2_adds(8, (self.used - 8) as nat);
                if self.used < 8 {
                    vstd::arithmetic::power2::lemma_pow2_strictly_increases(
                        self.used as nat,
                        8,
                    );
                }
            }
            let add = if self.used < 8 {
                pow2_u8(self.used)
            } else {
                pow2_u8(self.used - 8)
            };
            let v = self.buf[idx];
            self.buf[idx] = v + add;
            self.used = self.used + 1;
            proof {
                lemma_pow2_adds(8, (mid.used - 8) as nat);
                vstd::arithmetic::power2::lemma_pow2_unfold((mid.used + 1) as nat);
                assert(self.buf@ =~= mid.buf@.update(
                    mid.ctrl + mid.used / 8,
                    (mid.buf@[mid.ctrl + mid.used / 8] + pow2((mid.used % 8) as nat)) as u8,
                ));
            }
        } else {
            self.used = self.used + 1;
            proof {
                vstd::arithmetic::power2::lemma_pow2_unfold((mid.used + 1) as nat);
            }
        }
    }

    fn byte(&mut self, v: u8)
        requires
            old(self).wf(),
        ensures
            final(self).wf(),
            final(self).wstate() == swbyte(old(self).wstate(), v),
    {
        self.buf.push(v);
    }

    /// Writes the low `n` bits of `v`, `n` at most 13, in the split order
    /// the reader expects.
    #[verifier::loop_isolation(false)]
    fn bits(&mut self, n: usize, v: usize)
        requires
            old(self).wf(),
            n <= 13,
            v < pow2(n as nat),
        ensures
            final(self).wf(),
            final(self).wstate() == swbits(old(self).wstate(), n as nat, v as int),
    {
        proof {
            lemma2_to64();
        }
        let k = n % 8;
        let m = n / 8;
        let hi = if m == 1 {
            v / 256
        } else {
            v
        };
        proof {
            if m == 1 {
                lemma_pow2_adds(8, (n - 8) as nat);
                assert(v / 256 < pow2((n - 8) as nat)) by (nonlinear_arith)
                    requires
                        v < pow2(n as nat),
                        pow2(n as nat) == 256 * pow2((n - 8) as nat),
                        v >= 0,
                ;
            } else {
                assert(hi == v as int / pow2(0) as int);
            }
            assert(hi as int == v as int / pow2((8 * m) as nat) as int);
        }
        let ghost w0 = self.wstate();
        let mut t: usize = 0;
        let mut p: u8 = if k == 0 {
            1
        } else {
            pow2_u8(k - 1)
        };
        while t < k
            invariant
                t <= k,
                k <= 7,
                self.wf(),
                t < k ==> p == pow2((k - 1 - t) as nat),
                swbits_k(w0, k as nat, hi as int) == swbits_k(
                    self.wstate(),
                    (k - t) as nat,
                    hi as int,
                ),
            decreases k - t,
        {
            let b = (hi / (p as usize)) % 2 == 1;
            self.bit(b);
            proof {
                if t + 1 < k {
                    vstd::arithmetic::power2::lemma_pow2_unfold((k - 1 - t) as nat);
                }
            }
            p = p / 2;
            t = t + 1;
        }
        if m == 1 {
            self.byte((v % 256) as u8);
        }
    }

    /// Writes the shared count code for `n` in 2 to 269.
    fn count(&mut self, n: usize)
        requires
            old(self).wf(),
            2 <= n <= 269,
        ensures
            final(self).wf(),
            final(self).wstate() == swcount(old(self).wstate(), n as int),
    {
        proof {
            lemma2_to64();
        }
        if n == 2 {
            self.bit(true);
        } else if n == 3 {
            self.bit(false);
            self.bit(true);
        } else if n == 4 {
            self.bit(false);
            self.bit(false);
            self.bit(true);
        } else if n == 5 {
            self.bit(false);
            self.bit(false);
            self.bit(false);
            self.bit(true);
        } else if n <= 13 {
            self.bit(false);
            self.bit(false);
            self.bit(false);
            self.bit(false);
            self.bit(true);
            self.bits(3, n - 6);
        } else {
            self.bit(false);
            self.bit(false);
            self.bit(false);
            self.bit(false);
            self.bit(false);
            self.bits(8, n - 14);
        }
    }
}

/// `pow2(e)` as a byte, for bit masks.
fn pow2_u8(e: usize) -> (r: u8)
    requires
        e <= 7,
    ensures
        r == pow2(e as nat),
{
    proof {
        lemma2_to64();
    }
    if e == 0 {
        1
    } else if e == 1 {
        2
    } else if e == 2 {
        4
    } else if e == 3 {
        8
    } else if e == 4 {
        16
    } else if e == 5 {
        32
    } else if e == 6 {
        64
    } else {
        128
    }
}

/// Compresses `input` with mode 2, appending to `out`. The emitted bytes
/// are exactly what [`enc2_full`] defines.
#[verifier::loop_isolation(false)]
#[verifier::rlimit(100)]
fn compress_mode2(input: &[u8], out: &mut Vec<u8>)
    ensures
        final(out)@ == old(out)@ + enc2_full(input@),
{
    proof {
        lemma2_to64();
    }
    let mut w = W2::new();
    let mut i: usize = 0;
    while i < input.len()
        invariant
            i <= input@.len(),
            w.wf(),
            enc2(input@, 0, WState { buf: seq![0u8, 0u8], ctrl: 0, used: 8 }) == enc2(
                input@,
                i as int,
                w.wstate(),
            ),
        decreases input@.len() - i,
    {
        let ghost i0 = i as int;
        let ghost w0 = w.wstate();
        let limit = if input.len() - i >= 269 {
            269
        } else {
            input.len() - i
        };
        let m = find_match(input, i, 0x1FFF, limit);
        proof {
            lemma_best_from_greedy(
                input@,
                if i >= 0x1FFF {
                    i - 0x1FFF
                } else {
                    0int
                },
                i - 1,
                i as int,
                limit as int,
            );
            if m.1 > 0 {
                lemma_count_eq_bounds(input@, i as int, m.0 as int, limit as int);
            }
        }
        if m.1 >= 2 {
            let o = i - m.0;
            w.bit(true);
            if o <= 0xFF {
                w.bit(false);
                w.bits(8, o);
            } else {
                w.bit(true);
                w.bits(13, o);
            }
            w.count(m.1);
            i = i + m.1;
        } else {
            w.bit(false);
            w.byte(input[i]);
            i = i + 1;
        }
        proof {
            assert(enc2(input@, i0, w0) == enc2(input@, i as int, w.wstate()));
        }
    }
    w.bit(true);
    w.bit(true);
    w.bits(13, 0);
    let mut done = w.buf;
    out.append(&mut done);
    proof {
        assert(final(out)@ =~= old(out)@ + enc2_full(input@));
    }
}

/// Compresses a single chunk of data in the given BZip mode, appending to
/// `out`. The emitted bytes are exactly what [`enc1`] or [`enc2_full`]
/// defines, and decompressing them yields the input back.
pub fn compress(input: &[u8], out: &mut Vec<u8>, mode: CompressMode)
    ensures
        final(out)@ == old(out)@ + match mode {
            CompressMode::Mode1 => enc1(input@, 0, 0),
            CompressMode::Mode2 => enc2_full(input@),
        },
{
    match mode {
        CompressMode::Mode1 => compress_mode1(input, out),
        CompressMode::Mode2 => compress_mode2(input, out),
    }
}

} // verus!
