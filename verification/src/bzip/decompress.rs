//! BZip decoding. A chunk's first byte is the mode discriminator: zero
//! selects the bit-aligned mode 2, anything else the byte-aligned mode 1.
//!
//! The spec functions [`decode1`] and [`decode2`] state the wire formats
//! token by token; the executable decoders are proved to return exactly
//! what they define.

use vstd::prelude::*;

use crate::bits::bmeasure;
use crate::bits::bwf;
use crate::bits::lemma_sbit_measure;
use crate::bits::lemma_sbits_measure;
use crate::bits::lemma_scount_measure;
use crate::bits::sbit;
use crate::bits::sbits;
use crate::bits::scount;
use crate::bits::BState;
use crate::bits::Bits;
use crate::cursor::le16_at;
use crate::cursor::Reader;
use crate::sink::decomp_constant;
use crate::sink::decomp_repeat;
use crate::sink::extend_bytes;
use crate::sink::repeat_ok;
use crate::sink::spec_constant;
use crate::sink::spec_repeat;
use crate::Error;

verus! {

/// Mode 1, token by token. Each token is one byte: `00x nnnnn` copies a
/// literal run, `010x nnnn` emits a constant run of `4 + n`, `011 nnnnn`
/// repeats `n` bytes at the offset of the last `1nn ooooo` token, and
/// `1nn ooooo` forms a 13-bit offset with the next byte and copies `4 + n`
/// bytes from it. The stream ends when the input is exhausted.
pub open spec fn decode1(data: Seq<u8>, pos: int, out: Seq<u8>, floor: int, last_o: int) -> Result<
    Seq<u8>,
    Error,
>
    decreases data.len() - pos,
    when 0 <= pos <= data.len()
{
    if pos == data.len() {
        Ok(out)
    } else {
        let b = data[pos];
        if b < 0x20 {
            let n = b as int;
            if pos + 1 + n <= data.len() {
                decode1(data, pos + 1 + n, out + data.subrange(pos + 1, pos + 1 + n), floor, last_o)
            } else {
                Err(Error::Read { pos: (pos + 1) as usize })
            }
        } else if b < 0x40 {
            if pos + 2 <= data.len() {
                let n = (b - 0x20) * 0x100 + data[pos + 1];
                if pos + 2 + n <= data.len() {
                    decode1(
                        data,
                        pos + 2 + n,
                        out + data.subrange(pos + 2, pos + 2 + n),
                        floor,
                        last_o,
                    )
                } else {
                    Err(Error::Read { pos: (pos + 2) as usize })
                }
            } else {
                Err(Error::Read { pos: (pos + 1) as usize })
            }
        } else if b < 0x50 {
            let n = (b - 0x40) as int;
            if pos + 2 <= data.len() {
                decode1(
                    data,
                    pos + 2,
                    spec_constant(out, data[pos + 1], (4 + n) as nat),
                    floor,
                    last_o,
                )
            } else {
                Err(Error::Read { pos: (pos + 1) as usize })
            }
        } else if b < 0x60 {
            if pos + 2 <= data.len() {
                let n = (b - 0x50) * 0x100 + data[pos + 1];
                if pos + 3 <= data.len() {
                    decode1(
                        data,
                        pos + 3,
                        spec_constant(out, data[pos + 2], (4 + n) as nat),
                        floor,
                        last_o,
                    )
                } else {
                    Err(Error::Read { pos: (pos + 2) as usize })
                }
            } else {
                Err(Error::Read { pos: (pos + 1) as usize })
            }
        } else if b < 0x80 {
            let n = (b - 0x60) as int;
            if repeat_ok(out.len() as int, floor, last_o) {
                decode1(data, pos + 1, spec_repeat(out, last_o, n as nat), floor, last_o)
            } else {
                Err(
                    Error::BadRepeat {
                        count: n as usize,
                        offset: last_o as usize,
                        len: out.len() as usize,
                    },
                )
            }
        } else {
            let n = ((b - 0x80) / 0x20) as int;
            if pos + 2 <= data.len() {
                let o = (b % 0x20) * 0x100 + data[pos + 1];
                if repeat_ok(out.len() as int, floor, o as int) {
                    decode1(data, pos + 2, spec_repeat(out, o as int, (4 + n) as nat), floor, o)
                } else {
                    Err(
                        Error::BadRepeat {
                            count: (4 + n) as usize,
                            offset: o as usize,
                            len: out.len() as usize,
                        },
                    )
                }
            } else {
                Err(Error::Read { pos: (pos + 1) as usize })
            }
        }
    }
}

/// Mode 2, token by token over the bit stream. Bit `0` copies one literal
/// byte from the cursor; bits `10` read an 8-bit offset and a count; bits
/// `11` read a 13-bit value that is the end marker (0), a constant run
/// escape (1), or the offset of a copy.
pub open spec fn decode2(data: Seq<u8>, st: BState, out: Seq<u8>, floor: int) -> Result<
    Seq<u8>,
    Error,
>
    decreases bmeasure(data, st),
    when bwf(data, st)
    via decode2_dec
{
    match sbit(data, st) {
        Err(e) => Err(e),
        Ok((b1, st1)) => if !b1 {
            if st1.pos + 1 <= data.len() {
                decode2(
                    data,
                    BState { bits: st1.bits, pos: st1.pos + 1 },
                    out.push(data[st1.pos]),
                    floor,
                )
            } else {
                Err(Error::Read { pos: st1.pos as usize })
            }
        } else {
            match sbit(data, st1) {
                Err(e) => Err(e),
                Ok((b2, st2)) => if !b2 {
                    match sbits(data, st2, 8) {
                        Err(e) => Err(e),
                        Ok((o, st3)) => match scount(data, st3) {
                            Err(e) => Err(e),
                            Ok((n, st4)) => if repeat_ok(out.len() as int, floor, o) {
                                decode2(data, st4, spec_repeat(out, o, n as nat), floor)
                            } else {
                                Err(
                                    Error::BadRepeat {
                                        count: n as usize,
                                        offset: o as usize,
                                        len: out.len() as usize,
                                    },
                                )
                            },
                        },
                    }
                } else {
                    match sbits(data, st2, 13) {
                        Err(e) => Err(e),
                        Ok((v, st3)) => if v == 0 {
                            Ok(out)
                        } else if v == 1 {
                            match sbit(data, st3) {
                                Err(e) => Err(e),
                                Ok((wide, st4)) => match sbits(
                                    data,
                                    st4,
                                    if wide {
                                        12nat
                                    } else {
                                        4nat
                                    },
                                ) {
                                    Err(e) => Err(e),
                                    Ok((n, st5)) => if st5.pos + 1 <= data.len() {
                                        decode2(
                                            data,
                                            BState { bits: st5.bits, pos: st5.pos + 1 },
                                            spec_constant(out, data[st5.pos], (14 + n) as nat),
                                            floor,
                                        )
                                    } else {
                                        Err(Error::Read { pos: st5.pos as usize })
                                    },
                                },
                            }
                        } else {
                            match scount(data, st3) {
                                Err(e) => Err(e),
                                Ok((n, st4)) => if repeat_ok(out.len() as int, floor, v) {
                                    decode2(data, st4, spec_repeat(out, v, n as nat), floor)
                                } else {
                                    Err(
                                        Error::BadRepeat {
                                            count: n as usize,
                                            offset: v as usize,
                                            len: out.len() as usize,
                                        },
                                    )
                                },
                            }
                        },
                    }
                },
            }
        },
    }
}

#[via_fn]
proof fn decode2_dec(data: Seq<u8>, st: BState, out: Seq<u8>, floor: int) {
    lemma_sbit_measure(data, st);
    match sbit(data, st) {
        Err(e) => {},
        Ok((b1, st1)) => {
            lemma_sbit_measure(data, st1);
            match sbit(data, st1) {
                Err(e) => {},
                Ok((b2, st2)) => {
                    lemma_sbits_measure(data, st2, 8);
                    lemma_sbits_measure(data, st2, 13);
                    match sbits(data, st2, 8) {
                        Err(e) => {},
                        Ok((o, st3)) => {
                            lemma_scount_measure(data, st3);
                        },
                    }
                    match sbits(data, st2, 13) {
                        Err(e) => {},
                        Ok((v, st3)) => {
                            lemma_scount_measure(data, st3);
                            lemma_sbit_measure(data, st3);
                            match sbit(data, st3) {
                                Err(e) => {},
                                Ok((wide, st4)) => {
                                    lemma_sbits_measure(
                                        data,
                                        st4,
                                        if wide {
                                            12nat
                                        } else {
                                            4nat
                                        },
                                    );
                                },
                            }
                        },
                    }
                },
            }
        },
    }
}

/// The primed initial state of a mode 2 stream: the first 16-bit word is
/// loaded and its low byte — the mode discriminator — is skipped, so the
/// first bit consumed is bit 0 of the second byte.
pub open spec fn prime_state(data: Seq<u8>) -> BState {
    BState { bits: crate::bits::bits_view(le16_at(data, 0) as nat, 16).skip(8), pos: 2 }
}

/// What decompressing `data` appends to an output that already holds
/// `out`: mode 2 when the first byte is zero, else mode 1.
pub open spec fn spec_decompress(data: Seq<u8>, out: Seq<u8>) -> Result<Seq<u8>, Error> {
    if data.len() > 0 && data[0] == 0 {
        if data.len() >= 2 {
            decode2(data, prime_state(data), out, out.len() as int)
        } else {
            Err(Error::Read { pos: 0 })
        }
    } else {
        decode1(data, 0, out, out.len() as int, 0)
    }
}

/// Decompresses a single BZip chunk of either mode, appending to `w`.
/// On success the appended bytes are exactly what [`spec_decompress`]
/// defines; on failure the reported error is the one it defines, and `w`
/// keeps its old contents as a prefix.
pub fn decompress(data: &[u8], w: &mut Vec<u8>) -> (r: Result<(), Error>)
    ensures
        old(w)@.is_prefix_of(final(w)@),
        match spec_decompress(data@, old(w)@) {
            Ok(res) => r == Ok::<(), Error>(()) && final(w)@ == res,
            Err(e) => r == Err::<(), Error>(e),
        },
{
    if data.len() > 0 && data[0] == 0 {
        decompress_mode2(data, w)
    } else {
        decompress_mode1(data, w)
    }
}

/// The byte-aligned mode 1 decoder.
#[verifier::loop_isolation(false)]
#[verifier::rlimit(100)]
fn decompress_mode1(data: &[u8], w: &mut Vec<u8>) -> (r: Result<(), Error>)
    ensures
        old(w)@.is_prefix_of(final(w)@),
        match decode1(data@, 0, old(w)@, old(w)@.len() as int, 0) {
            Ok(res) => r == Ok::<(), Error>(()) && final(w)@ == res,
            Err(e) => r == Err::<(), Error>(e),
        },
{
    let ghost floor_i = w@.len() as int;
    let floor: usize = w.len();
    let mut f = Reader::new(data);
    let mut last_o: usize = 0;
    while !f.is_empty()
        invariant
            f.wf(),
            f.data_seq() == data@,
            floor == old(w)@.len(),
            old(w)@.is_prefix_of(w@),
            last_o <= 0x1FFF,
            decode1(data@, 0, old(w)@, floor_i, 0) == decode1(
                data@,
                f.position(),
                w@,
                floor_i,
                last_o as int,
            ),
        decreases data@.len() - f.position(),
    {
        let ghost pre_pos = f.position();
        let ghost pre_out = w@;
        let op = match f.u8() {
            Ok(b) => b,
            Err(e) => {
                return Err(e);
            },
        };
        if op < 0x20 {
            let n = op as usize;
            let s = match f.slice(n) {
                Ok(s) => s,
                Err(e) => {
                    return Err(e);
                },
            };
            extend_bytes(w, s);
        } else if op < 0x40 {
            let lo = match f.u8() {
                Ok(b) => b,
                Err(e) => {
                    return Err(e);
                },
            };
            let n = (op - 0x20) as usize * 0x100 + lo as usize;
            let s = match f.slice(n) {
                Ok(s) => s,
                Err(e) => {
                    return Err(e);
                },
            };
            extend_bytes(w, s);
        } else if op < 0x50 {
            let n = (op - 0x40) as usize;
            let v = match f.u8() {
                Ok(b) => b,
                Err(e) => {
                    return Err(e);
                },
            };
            decomp_constant(w, 4 + n, v);
        } else if op < 0x60 {
            let lo = match f.u8() {
                Ok(b) => b,
                Err(e) => {
                    return Err(e);
                },
            };
            let n = (op - 0x50) as usize * 0x100 + lo as usize;
            let v = match f.u8() {
                Ok(b) => b,
                Err(e) => {
                    return Err(e);
                },
            };
            decomp_constant(w, 4 + n, v);
        } else if op < 0x80 {
            let n = (op - 0x60) as usize;
            match decomp_repeat(w, floor, n, last_o) {
                Ok(()) => {},
                Err(e) => {
                    return Err(e);
                },
            }
        } else {
            let lo = match f.u8() {
                Ok(b) => b,
                Err(e) => {
                    return Err(e);
                },
            };
            let n = ((op - 0x80) / 0x20) as usize;
            let o = (op % 0x20) as usize * 0x100 + lo as usize;
            last_o = o;
            match decomp_repeat(w, floor, 4 + n, o) {
                Ok(()) => {},
                Err(e) => {
                    return Err(e);
                },
            }
        }
        proof {
            lemma_prefix_step(old(w)@, pre_out, w@);
        }
    }
    Ok(())
}

/// Prefixes chain: what was a prefix of the old buffer is a prefix of any
/// extension of it.
proof fn lemma_prefix_step(base: Seq<u8>, mid: Seq<u8>, cur: Seq<u8>)
    requires
        base.is_prefix_of(mid),
        mid.is_prefix_of(cur),
    ensures
        base.is_prefix_of(cur),
{
    assert(base =~= cur.subrange(0, base.len() as int));
}

/// The bit-aligned mode 2 decoder.
#[verifier::loop_isolation(false)]
#[verifier::rlimit(100)]
fn decompress_mode2(data: &[u8], w: &mut Vec<u8>) -> (r: Result<(), Error>)
    requires
        data@.len() > 0,
        data@[0] == 0,
    ensures
        old(w)@.is_prefix_of(final(w)@),
        match spec_decompress(data@, old(w)@) {
            Ok(res) => r == Ok::<(), Error>(()) && final(w)@ == res,
            Err(e) => r == Err::<(), Error>(e),
        },
{
    let ghost floor_i = w@.len() as int;
    let floor: usize = w.len();
    let mut f = Reader::new(data);
    let w16 = match f.u16() {
        Ok(v) => v,
        Err(e) => {
            return Err(e);
        },
    };
    let mut b = Bits { bits: w16 / 0x100, avail: 8 };
    proof {
        crate::bits::lemma_bits_view_div(w16 as nat, 16, 8);
        vstd::arithmetic::power2::lemma2_to64();
        assert(b.st(&f) == prime_state(data@));
    }
    let mut done = false;
    while !done
        invariant
            f.wf(),
            f.data_seq() == data@,
            floor == old(w)@.len(),
            old(w)@.is_prefix_of(w@),
            bwf(data@, b.st(&f)),
            if done {
                decode2(data@, prime_state(data@), old(w)@, floor_i) == Ok::<Seq<u8>, Error>(w@)
            } else {
                decode2(data@, prime_state(data@), old(w)@, floor_i) == decode2(
                    data@,
                    b.st(&f),
                    w@,
                    floor_i,
                )
            },
        decreases bmeasure(data@, b.st(&f)),
    {
        let ghost st_loop = b.st(&f);
        let ghost out_loop = w@;
        proof {
            lemma_sbit_measure(data@, st_loop);
        }
        let b1 = match b.bit(&mut f) {
            Ok(v) => v,
            Err(e) => {
                return Err(e);
            },
        };
        if !b1 {
            let ghost st1 = b.st(&f);
            let lit = match f.u8() {
                Ok(v) => v,
                Err(e) => {
                    return Err(e);
                },
            };
            w.push(lit);
            proof {
                assert(b.st(&f) == BState { bits: st1.bits, pos: st1.pos + 1 });
            }
        } else {
            let ghost st1 = b.st(&f);
            proof {
                lemma_sbit_measure(data@, st1);
            }
            let b2 = match b.bit(&mut f) {
                Ok(v) => v,
                Err(e) => {
                    return Err(e);
                },
            };
            let ghost st2 = b.st(&f);
            proof {
                lemma_sbits_measure(data@, st2, 8);
                lemma_sbits_measure(data@, st2, 13);
            }
            if !b2 {
                let o = match b.bits(8, &mut f) {
                    Ok(v) => v,
                    Err(e) => {
                        return Err(e);
                    },
                };
                let ghost st3 = b.st(&f);
                proof {
                    lemma_scount_measure(data@, st3);
                }
                let n = match b.read_count(&mut f) {
                    Ok(v) => v,
                    Err(e) => {
                        return Err(e);
                    },
                };
                match decomp_repeat(w, floor, n, o) {
                    Ok(()) => {},
                    Err(e) => {
                        return Err(e);
                    },
                }
            } else {
                let v = match b.bits(13, &mut f) {
                    Ok(v) => v,
                    Err(e) => {
                        return Err(e);
                    },
                };
                let ghost st3 = b.st(&f);
                proof {
                    lemma_scount_measure(data@, st3);
                    lemma_sbit_measure(data@, st3);
                }
                if v == 0 {
                    done = true;
                } else if v == 1 {
                    let wide = match b.bit(&mut f) {
                        Ok(v) => v,
                        Err(e) => {
                            return Err(e);
                        },
                    };
                    let ghost st4 = b.st(&f);
                    proof {
                        lemma_sbits_measure(
                            data@,
                            st4,
                            if wide {
                                12nat
                            } else {
                                4nat
                            },
                        );
                    }
                    let n = if wide {
                        match b.bits(12, &mut f) {
                            Ok(v) => v,
                            Err(e) => {
                                return Err(e);
                            },
                        }
                    } else {
                        match b.bits(4, &mut f) {
                            Ok(v) => v,
                            Err(e) => {
                                return Err(e);
                            },
                        }
                    };
                    let ghost st5 = b.st(&f);
                    let c = match f.u8() {
                        Ok(v) => v,
                        Err(e) => {
                            return Err(e);
                        },
                    };
                    decomp_constant(w, 14 + n, c);
                    proof {
                        assert(b.st(&f) == BState { bits: st5.bits, pos: st5.pos + 1 });
                    }
                } else {
                    let n = match b.read_count(&mut f) {
                        Ok(v) => v,
                        Err(e) => {
                            return Err(e);
                        },
                    };
                    match decomp_repeat(w, floor, n, v) {
                        Ok(()) => {},
                        Err(e) => {
                            return Err(e);
                        },
                    }
                }
            }
        }
        proof {
            lemma_prefix_step(old(w)@, out_loop, w@);
        }
    }
    Ok(())
}

} // verus!
