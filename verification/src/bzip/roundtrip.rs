//! The mode 2 round trip: what the bit writer of [`crate::bzip::compress`]
//! packs, the bit reader of [`crate::bzip::decompress`] unpacks, bit for
//! bit. The writer back-patches control words it has already emitted, so
//! the proofs work over an extension order on writer states: once a bit or
//! byte is placed, no later write moves it, and a reader of the finished
//! stream positioned where the writer stood sees exactly what was written
//! next.

use vstd::arithmetic::power2::lemma2_to64;
use vstd::arithmetic::power2::lemma_pow2_adds;
use vstd::arithmetic::power2::lemma_pow2_pos;
use vstd::arithmetic::power2::lemma_pow2_unfold;
use vstd::arithmetic::power2::pow2;
use vstd::prelude::*;

use crate::bits::bits_view;
use crate::bits::lemma_bits_view_index;
use crate::bits::lemma_bits_view_len;
use crate::bits::sbit;
use crate::bits::scount;
use crate::bits::BState;
use crate::bzip::compress::enc2;
use crate::bzip::compress::enc2_full;
use crate::bzip::compress::swbit;
use crate::bzip::compress::swcount;
use crate::bzip::compress::swbits;
use crate::bzip::compress::swbits_k;
use crate::bzip::compress::swbyte;
use crate::bzip::compress::WState;
use crate::cursor::le16_at;

verus! {

/// A well-formed writer: the control word sits inside the buffer and its
/// bits from `used` on are still zero.
pub open spec fn wwf(w: WState) -> bool {
    &&& 0 <= w.ctrl
    &&& w.ctrl + 2 <= w.buf.len()
    &&& 0 <= w.used <= 16
    &&& le16_at(w.buf, w.ctrl) < pow2(w.used as nat)
}

/// `w2` extends `w1`: every byte `w1` finished is unchanged, the low
/// `used` bits of `w1`'s control word are unchanged, and the control word
/// only moves forward, past the old one.
pub open spec fn wext(w1: WState, w2: WState) -> bool {
    &&& w2.buf.len() >= w1.buf.len()
    &&& forall|j: int|
        0 <= j < w1.buf.len() && !(w1.ctrl <= j < w1.ctrl + 2) ==> #[trigger] w2.buf[j]
            == w1.buf[j]
    &&& le16_at(w2.buf, w1.ctrl) % pow2(w1.used as nat) as int == le16_at(w1.buf, w1.ctrl)
    &&& ((w2.ctrl == w1.ctrl && w2.used >= w1.used) || (w2.ctrl >= w1.ctrl + 2 && w2.ctrl
        >= w1.buf.len()))
}

/// The reader state that corresponds to a writer state, on the finished
/// stream `data`: positioned after every byte the writer has emitted, with
/// the unconsumed bits of the writer's current control word buffered.
pub open spec fn rstate(w: WState, data: Seq<u8>) -> BState {
    BState {
        bits: bits_view(le16_at(data, w.ctrl) as nat, 16).skip(w.used),
        pos: w.buf.len() as int,
    }
}

pub proof fn lemma_wext_refl(w: WState)
    requires
        wwf(w),
    ensures
        wext(w, w),
{
    lemma_pow2_pos(w.used as nat);
    vstd::arithmetic::div_mod::lemma_small_mod(
        le16_at(w.buf, w.ctrl) as nat,
        pow2(w.used as nat),
    );
}

pub proof fn lemma_wext_trans(w1: WState, w2: WState, w3: WState)
    requires
        wwf(w1),
        wwf(w2),
        wext(w1, w2),
        wext(w2, w3),
    ensures
        wext(w1, w3),
{
    if w2.ctrl == w1.ctrl {
        // the low bits survive because pow2(w1.used) divides pow2(w2.used)
        let u1 = w1.used as nat;
        let u2 = w2.used as nat;
        let x = le16_at(w3.buf, w1.ctrl);
        lemma_pow2_pos(u1);
        lemma_pow2_pos(u2);
        lemma_pow2_pos((u2 - u1) as nat);
        lemma_pow2_adds(u1, (u2 - u1) as nat);
        assert(pow2(u2) as int == pow2(u1) as int * pow2((u2 - u1) as nat) as int);
        assert(x % pow2(u2) as int == le16_at(w2.buf, w1.ctrl));
        assert((x % (pow2(u1) as int * pow2((u2 - u1) as nat) as int)) % pow2(u1) as int == x
            % pow2(u1) as int) by {
            vstd::arithmetic::div_mod::lemma_mod_mod(x, pow2(u1) as int, pow2(
                (u2 - u1) as nat,
            ) as int);
        }
        assert(le16_at(w2.buf, w1.ctrl) % pow2(u1) as int == le16_at(w1.buf, w1.ctrl));
    } else {
        // w1's word is frozen: w2 and w3 agree on it byte for byte
        assert(w3.buf[w1.ctrl] == w2.buf[w1.ctrl]);
        assert(w3.buf[w1.ctrl + 1] == w2.buf[w1.ctrl + 1]);
        assert(le16_at(w3.buf, w1.ctrl) == le16_at(w2.buf, w1.ctrl));
    }
}

/// One written bit extends the writer.
pub proof fn lemma_swbit_ext(w: WState, b: bool)
    requires
        wwf(w),
    ensures
        wwf(swbit(w, b)),
        wext(w, swbit(w, b)),
        le16_at(swbit(w, b).buf, swbit(w, b).ctrl) == le16_at(
            if w.used == 16 {
                WState { buf: w.buf + seq![0u8, 0u8], ctrl: w.buf.len() as int, used: 0 }
            } else {
                w
            }.buf,
            swbit(w, b).ctrl,
        ) + if b {
            pow2(
                (if w.used == 16 {
                    0
                } else {
                    w.used
                }) as nat,
            ) as int
        } else {
            0
        },
        swbit(w, b).used == 1 + if w.used == 16 {
            0int
        } else {
            w.used
        },
{
    lemma2_to64();
    let w1 = if w.used == 16 {
        WState { buf: w.buf + seq![0u8, 0u8], ctrl: w.buf.len() as int, used: 0 }
    } else {
        w
    };
    let word = le16_at(w1.buf, w1.ctrl);
    let u = w1.used as nat;
    let wf = swbit(w, b);
    lemma_pow2_pos(u);
    lemma_pow2_unfold((u + 1) as nat);
    if w.used == 16 {
        assert(w1.buf[w1.ctrl] == 0 && w1.buf[w1.ctrl + 1] == 0);
        assert(word == 0);
    }
    // the control word after the write
    if b {
        let idx = w1.ctrl + w1.used / 8;
        if w1.used < 8 {
            vstd::arithmetic::power2::lemma_pow2_strictly_increases(u, 8);
            assert(w1.buf[w1.ctrl + 1] * 0x100 <= word) by (nonlinear_arith)
                requires
                    word == w1.buf[w1.ctrl] + 0x100 * w1.buf[w1.ctrl + 1],
                    w1.buf[w1.ctrl] >= 0,
            ;
            assert(w1.buf[w1.ctrl] + pow2(u) < 0x100);
            assert(le16_at(wf.buf, w1.ctrl) == word + pow2(u));
        } else {
            lemma_pow2_adds(8, (u - 8) as nat);
            lemma_pow2_pos((u - 8) as nat);
            assert(w1.buf[w1.ctrl + 1] == word / 0x100 && word / 0x100 < pow2((u - 8) as nat))
                by (nonlinear_arith)
                requires
                    word == w1.buf[w1.ctrl] + 0x100 * w1.buf[w1.ctrl + 1],
                    0 <= w1.buf[w1.ctrl] < 0x100,
                    0 <= w1.buf[w1.ctrl + 1],
                    word < pow2(u),
                    pow2(u) == 0x100 * pow2((u - 8) as nat),
            ;
            vstd::arithmetic::power2::lemma_pow2_strictly_increases((u - 8) as nat, 8);
            assert(le16_at(wf.buf, w1.ctrl) == word + 0x100 * pow2((u - 8) as nat));
            assert(0x100 * pow2((u - 8) as nat) == pow2(u));
        }
    }
    let word2 = le16_at(wf.buf, w1.ctrl);
    assert(word2 == word + if b {
        pow2(u) as int
    } else {
        0
    });
    // well-formedness: the new word still fits below the new used count
    assert(word2 < pow2((u + 1) as nat));
    // the old low bits are intact
    assert(word2 % pow2(u) as int == word) by {
        if b {
            vstd::arithmetic::div_mod::lemma_mod_add_multiples_vanish(word, pow2(u) as int);
        }
        vstd::arithmetic::div_mod::lemma_small_mod(word as nat, pow2(u));
    }
    if w.used == 16 {
        // the old word is frozen beyond its own two bytes
        assert(wf.buf[w.ctrl] == w.buf[w.ctrl]);
        assert(wf.buf[w.ctrl + 1] == w.buf[w.ctrl + 1]);
        assert(le16_at(wf.buf, w.ctrl) == le16_at(w.buf, w.ctrl));
        vstd::arithmetic::div_mod::lemma_small_mod(le16_at(w.buf, w.ctrl) as nat, pow2(16));
    }
}

/// One written byte extends the writer.
pub proof fn lemma_swbyte_ext(w: WState, v: u8)
    requires
        wwf(w),
    ensures
        wwf(swbyte(w, v)),
        wext(w, swbyte(w, v)),
{
    lemma_pow2_pos(w.used as nat);
    vstd::arithmetic::div_mod::lemma_small_mod(
        le16_at(w.buf, w.ctrl) as nat,
        pow2(w.used as nat),
    );
    assert(le16_at(swbyte(w, v).buf, w.ctrl) == le16_at(w.buf, w.ctrl));
}

/// A written bit group extends the writer.
pub proof fn lemma_swbits_k_ext(w: WState, k: nat, hi: int)
    requires
        wwf(w),
    ensures
        wwf(swbits_k(w, k, hi)),
        wext(w, swbits_k(w, k, hi)),
    decreases k,
{
    if k == 0 {
        lemma_wext_refl(w);
    } else {
        let b = hi / pow2((k - 1) as nat) as int % 2 == 1;
        lemma_swbit_ext(w, b);
        lemma_swbits_k_ext(swbit(w, b), (k - 1) as nat, hi);
        lemma_wext_trans(w, swbit(w, b), swbits_k(swbit(w, b), (k - 1) as nat, hi));
    }
}

/// A written wide field extends the writer.
pub proof fn lemma_swbits_ext(w: WState, n: nat, v: int)
    requires
        wwf(w),
    ensures
        wwf(swbits(w, n, v)),
        wext(w, swbits(w, n, v)),
{
    let k = n % 8;
    let m = n / 8;
    let hi = v / pow2(8 * m) as int;
    lemma_swbits_k_ext(w, k, hi);
    if m == 1 {
        let wk = swbits_k(w, k, hi);
        lemma_swbyte_ext(wk, (v % 256) as u8);
        lemma_wext_trans(w, wk, swbyte(wk, (v % 256) as u8));
    }
}

/// Reading one bit back: a reader of the finished stream positioned where
/// the writer stood sees exactly the bit the writer wrote next.
pub proof fn lemma_sbit_reads(w: WState, b: bool, wfin: WState, data: Seq<u8>)
    requires
        wwf(w),
        wext(swbit(w, b), wfin),
        data == wfin.buf,
    ensures
        sbit(data, rstate(w, data)) == Ok::<(bool, BState), crate::Error>(
            (b, rstate(swbit(w, b), data)),
        ),
{
    lemma2_to64();
    lemma_swbit_ext(w, b);
    let wb = swbit(w, b);
    let st = rstate(w, data);
    if w.used < 16 {
        let u = w.used as nat;
        let wv = le16_at(data, w.ctrl) as nat;
        lemma_bits_view_len(wv, 16);
        assert(st.bits.len() == 16 - w.used);
        lemma_bits_view_index(wv, 16, w.used as int);
        assert(st.bits[0] == bits_view(wv, 16)[w.used as int]);
        // the bit at position `used` of the final word is the written bit
        lemma_pow2_pos(u);
        lemma_pow2_unfold((u + 1) as nat);
        let word = le16_at(w.buf, w.ctrl);
        assert(le16_at(data, w.ctrl) % pow2((u + 1) as nat) as int == word + if b {
            pow2(u) as int
        } else {
            0
        });
        let bv: int = if b {
            1int
        } else {
            0int
        };
        assert(wv as int / pow2(u) as int % 2 == bv) by {
            let p = pow2(u) as int;
            let x = wv as int;
            vstd::arithmetic::div_mod::lemma_mod_breakdown(x, p, 2);
            assert(x % (p * 2) == p * (x / p % 2) + x % p);
            assert(x % (p * 2) == word + bv * p);
            assert(x % p == word) by {
                vstd::arithmetic::div_mod::lemma_mod_mod(x, p, 2);
                if b {
                    vstd::arithmetic::div_mod::lemma_mod_add_multiples_vanish(word, p);
                }
                vstd::arithmetic::div_mod::lemma_small_mod(word as nat, pow2(u));
            }
            assert(p * (x / p % 2) == p * bv) by (nonlinear_arith)
                requires
                    p * (x / p % 2) + x % p == word + bv * p,
                    x % p == word,
            ;
            assert(x / p % 2 == bv) by (nonlinear_arith)
                requires
                    p * (x / p % 2) == p * bv,
                    p > 0,
            ;
        }
        assert(st.bits[0] == b);
        assert(st.bits.skip(1) =~= bits_view(wv, 16).skip(w.used + 1));
        assert(rstate(wb, data).bits =~= st.bits.skip(1));
        assert(rstate(wb, data).pos == st.pos);
        assert(sbit(data, st)->Ok_0.1 == rstate(wb, data));
    } else {
        // sixteen bits consumed: the reader refills from the word the
        // writer just reserved
        let wv = le16_at(data, w.ctrl) as nat;
        lemma_bits_view_len(wv, 16);
        assert(st.bits =~= Seq::<bool>::empty());
        assert(wb.ctrl == w.buf.len());
        assert(wb.buf.len() == w.buf.len() + 2);
        assert(data.len() >= wb.buf.len());
        let w2v = le16_at(data, wb.ctrl) as nat;
        lemma_bits_view_len(w2v, 16);
        lemma_bits_view_index(w2v, 16, 0);
        assert(le16_at(data, wb.ctrl) % pow2(1) as int == if b {
            1int
        } else {
            0int
        });
        assert(w2v as int / pow2(0) as int % 2 == w2v as int % 2);
        assert(bits_view(w2v, 16)[0] == b);
        assert(sbit(data, st)->Ok_0.1.bits == bits_view(w2v, 16).skip(1));
        assert(rstate(wb, data).bits == bits_view(w2v, 16).skip(1));
        assert(rstate(wb, data).pos == w.buf.len() + 2);
    }
}

/// Reading one payload byte back.
pub proof fn lemma_byte_reads(w: WState, v: u8, wfin: WState, data: Seq<u8>)
    requires
        wwf(w),
        wext(swbyte(w, v), wfin),
        data == wfin.buf,
    ensures
        w.buf.len() + 1 <= data.len(),
        data[w.buf.len() as int] == v,
        rstate(swbyte(w, v), data) == (BState {
            bits: rstate(w, data).bits,
            pos: w.buf.len() as int + 1,
        }),
{
    let wb = swbyte(w, v);
    assert(wb.buf[w.buf.len() as int] == v);
    assert(data[w.buf.len() as int] == wb.buf[w.buf.len() as int]);
}

/// Reading a bit group back accumulates exactly the low bits written.
pub proof fn lemma_swbits_k_reads(
    w: WState,
    k: nat,
    hi: int,
    acc: int,
    wfin: WState,
    data: Seq<u8>,
)
    requires
        wwf(w),
        k <= 7,
        hi >= 0,
        acc >= 0,
        wext(swbits_k(w, k, hi), wfin),
        data == wfin.buf,
    ensures
        crate::bits::sbits_acc(data, rstate(w, data), k, acc) == Ok::<
            (int, BState),
            crate::Error,
        >((acc * pow2(k) as int + hi % pow2(k) as int, rstate(swbits_k(w, k, hi), data))),
    decreases k,
{
    lemma2_to64();
    lemma_pow2_pos(k);
    if k == 0 {
        assert(hi % pow2(0) as int == 0) by {
            assert(hi % 1 == 0) by (nonlinear_arith)
                requires
                    hi >= 0,
            ;
        }
    } else {
        let km = (k - 1) as nat;
        lemma_pow2_pos(km);
        lemma_pow2_unfold(k);
        let bv = hi / pow2(km) as int % 2;
        let b = bv == 1;
        assert(0 <= bv < 2) by {
            vstd::arithmetic::div_mod::lemma_mod_bound(hi / pow2(km) as int, 2);
            assert(hi / pow2(km) as int >= 0) by (nonlinear_arith)
                requires
                    hi >= 0,
                    pow2(km) as int > 0,
            ;
        }
        let w1 = swbit(w, b);
        lemma_swbit_ext(w, b);
        lemma_swbits_k_ext(w1, km, hi);
        lemma_wext_trans(w1, swbits_k(w1, km, hi), wfin);
        lemma_sbit_reads(w, b, wfin, data);
        let acc1 = acc * 2 + bv;
        lemma_swbits_k_reads(w1, km, hi, acc1, wfin, data);
        assert(acc1 * pow2(km) as int + hi % pow2(km) as int == acc * pow2(k) as int + hi % pow2(
            k,
        ) as int) by {
            vstd::arithmetic::div_mod::lemma_mod_breakdown(hi, pow2(km) as int, 2);
            assert(hi % (pow2(km) as int * 2) == pow2(km) as int * bv + hi % pow2(km) as int);
            assert(acc1 * pow2(km) as int == acc * (2 * pow2(km) as int) + bv * pow2(km) as int)
                by (nonlinear_arith)
                requires
                    acc1 == acc * 2 + bv,
            ;
        }
    }
}

/// Reading a wide field back yields the value written.
pub proof fn lemma_swbits_reads(w: WState, n: nat, v: int, wfin: WState, data: Seq<u8>)
    requires
        wwf(w),
        n <= 13,
        0 <= v < pow2(n),
        wext(swbits(w, n, v), wfin),
        data == wfin.buf,
    ensures
        crate::bits::sbits(data, rstate(w, data), n) == Ok::<(int, BState), crate::Error>(
            (v, rstate(swbits(w, n, v), data)),
        ),
{
    lemma2_to64();
    let k = n % 8;
    let m = n / 8;
    let hi = v / pow2(8 * m) as int;
    lemma_pow2_pos(8 * m);
    lemma_pow2_pos(k);
    let wk = swbits_k(w, k, hi);
    lemma_swbits_k_ext(w, k, hi);
    assert(0 <= hi < pow2(k)) by {
        lemma_pow2_adds(k, 8 * m);
        assert(0 <= hi && hi < pow2(k) as int) by (nonlinear_arith)
            requires
                hi == v / pow2(8 * m) as int,
                0 <= v,
                v < pow2(n),
                pow2(n) == pow2(k) * pow2(8 * m),
                pow2(8 * m) as int > 0,
                k + 8 * m == n,
        ;
    }
    vstd::arithmetic::div_mod::lemma_small_mod(hi as nat, pow2(k));
    if m == 1 {
        let lo = (v % 256) as u8;
        lemma_swbyte_ext(wk, lo);
        lemma_wext_trans(wk, swbyte(wk, lo), wfin);
        lemma_swbits_k_reads(w, k, hi, 0, wfin, data);
        lemma_byte_reads(wk, lo, wfin, data);
        assert(hi * 256 + (v % 256) == v) by {
            vstd::arithmetic::div_mod::lemma_fundamental_div_mod(v, 256);
        }
        assert(crate::bits::sbytes_acc(data, rstate(wk, data), 1, hi) == Ok::<
            (int, BState),
            crate::Error,
        >((v, rstate(swbyte(wk, lo), data)))) by {
            assert(crate::bits::sbytes_acc(
                data,
                BState { bits: rstate(wk, data).bits, pos: wk.buf.len() as int + 1 },
                0,
                hi * 256 + v % 256,
            ) == Ok::<(int, BState), crate::Error>(
                (hi * 256 + v % 256, BState {
                    bits: rstate(wk, data).bits,
                    pos: wk.buf.len() as int + 1,
                }),
            ));
        }
    } else {
        assert(hi == v) by (nonlinear_arith)
            requires
                hi == v / pow2(0) as int,
                pow2(0) == 1,
                v >= 0,
        ;
        lemma_wext_trans(w, wk, wfin);
        lemma_swbits_k_reads(w, k, hi, 0, wfin, data);
    }
}


/// A written count code extends the writer.
pub proof fn lemma_swcount_ext(w: WState, n: int)
    requires
        wwf(w),
    ensures
        wwf(swcount(w, n)),
        wext(w, swcount(w, n)),
{
    let w1 = swbit(w, false);
    lemma_swbit_ext(w, false);
    lemma_swbit_ext(w, true);
    if n == 2 {
    } else if n == 3 {
        lemma_swbit_ext(w1, true);
        lemma_wext_trans(w, w1, swbit(w1, true));
    } else {
        let w2 = swbit(w1, false);
        lemma_swbit_ext(w1, false);
        lemma_wext_trans(w, w1, w2);
        if n == 4 {
            lemma_swbit_ext(w2, true);
            lemma_wext_trans(w, w2, swbit(w2, true));
        } else {
            let w3 = swbit(w2, false);
            lemma_swbit_ext(w2, false);
            lemma_wext_trans(w, w2, w3);
            if n == 5 {
                lemma_swbit_ext(w3, true);
                lemma_wext_trans(w, w3, swbit(w3, true));
            } else {
                let w4 = swbit(w3, false);
                lemma_swbit_ext(w3, false);
                lemma_wext_trans(w, w3, w4);
                if n <= 13 {
                    let w5 = swbit(w4, true);
                    lemma_swbit_ext(w4, true);
                    lemma_wext_trans(w, w4, w5);
                    lemma_swbits_ext(w5, 3, n - 6);
                    lemma_wext_trans(w, w5, swbits(w5, 3, n - 6));
                } else {
                    let w5 = swbit(w4, false);
                    lemma_swbit_ext(w4, false);
                    lemma_wext_trans(w, w4, w5);
                    lemma_swbits_ext(w5, 8, n - 14);
                    lemma_wext_trans(w, w5, swbits(w5, 8, n - 14));
                }
            }
        }
    }
}

/// Reading a count code back yields the count written.
pub proof fn lemma_swcount_reads(w: WState, n: int, wfin: WState, data: Seq<u8>)
    requires
        wwf(w),
        2 <= n <= 269,
        wext(swcount(w, n), wfin),
        data == wfin.buf,
    ensures
        scount(data, rstate(w, data)) == Ok::<(int, BState), crate::Error>(
            (n, rstate(swcount(w, n), data)),
        ),
{
    lemma2_to64();
    if n == 2 {
        lemma_sbit_reads(w, true, wfin, data);
    } else {
        let w1 = swbit(w, false);
        lemma_swbit_ext(w, false);
        if n == 3 {
            let w2 = swbit(w1, true);
            lemma_swbit_ext(w1, true);
            lemma_wext_trans(w1, w2, wfin);
            lemma_sbit_reads(w, false, wfin, data);
            lemma_sbit_reads(w1, true, wfin, data);
        } else {
            let w2 = swbit(w1, false);
            lemma_swbit_ext(w1, false);
            if n == 4 {
                let w3 = swbit(w2, true);
                lemma_swbit_ext(w2, true);
                lemma_wext_trans(w2, w3, wfin);
                lemma_wext_trans(w1, w2, wfin);
                lemma_sbit_reads(w, false, wfin, data);
                lemma_sbit_reads(w1, false, wfin, data);
                lemma_sbit_reads(w2, true, wfin, data);
            } else {
                let w3 = swbit(w2, false);
                lemma_swbit_ext(w2, false);
                if n == 5 {
                    let w4 = swbit(w3, true);
                    lemma_swbit_ext(w3, true);
                    lemma_wext_trans(w3, w4, wfin);
                    lemma_wext_trans(w2, w3, wfin);
                    lemma_wext_trans(w1, w2, wfin);
                    lemma_sbit_reads(w, false, wfin, data);
                    lemma_sbit_reads(w1, false, wfin, data);
                    lemma_sbit_reads(w2, false, wfin, data);
                    lemma_sbit_reads(w3, true, wfin, data);
                } else {
                    let w4 = swbit(w3, false);
                    lemma_swbit_ext(w3, false);
                    if n <= 13 {
                        let w5 = swbit(w4, true);
                        lemma_swbit_ext(w4, true);
                        let w6 = swbits(w5, 3, n - 6);
                        lemma_swbits_ext(w5, 3, n - 6);
                        lemma_wext_trans(w5, w6, wfin);
                        lemma_wext_trans(w4, w5, wfin);
                        lemma_wext_trans(w3, w4, wfin);
                        lemma_wext_trans(w2, w3, wfin);
                        lemma_wext_trans(w1, w2, wfin);
                        lemma_sbit_reads(w, false, wfin, data);
                        lemma_sbit_reads(w1, false, wfin, data);
                        lemma_sbit_reads(w2, false, wfin, data);
                        lemma_sbit_reads(w3, false, wfin, data);
                        lemma_sbit_reads(w4, true, wfin, data);
                        lemma_swbits_reads(w5, 3, n - 6, wfin, data);
                    } else {
                        let w5 = swbit(w4, false);
                        lemma_swbit_ext(w4, false);
                        let w6 = swbits(w5, 8, n - 14);
                        lemma_swbits_ext(w5, 8, n - 14);
                        lemma_wext_trans(w5, w6, wfin);
                        lemma_wext_trans(w4, w5, wfin);
                        lemma_wext_trans(w3, w4, wfin);
                        lemma_wext_trans(w2, w3, wfin);
                        lemma_wext_trans(w1, w2, wfin);
                        lemma_sbit_reads(w, false, wfin, data);
                        lemma_sbit_reads(w1, false, wfin, data);
                        lemma_sbit_reads(w2, false, wfin, data);
                        lemma_sbit_reads(w3, false, wfin, data);
                        lemma_sbit_reads(w4, false, wfin, data);
                        lemma_swbits_reads(w5, 8, n - 14, wfin, data);
                    }
                }
            }
        }
    }
}

/// The whole encoding from any position extends the writer.
pub proof fn lemma_enc2_ext(s: Seq<u8>, i: int, w: WState)
    requires
        0 <= i <= s.len(),
        wwf(w),
    ensures
        wwf(enc2(s, i, w)),
        wext(w, enc2(s, i, w)),
    decreases s.len() - i,
{
    if i >= s.len() {
        let w1 = swbit(w, true);
        let w2 = swbit(w1, true);
        lemma_swbit_ext(w, true);
        lemma_swbit_ext(w1, true);
        lemma_swbits_ext(w2, 13, 0);
        lemma_wext_trans(w, w1, w2);
        lemma_wext_trans(w, w2, swbits(w2, 13, 0));
    } else {
        let limit = if s.len() - i >= 269 {
            269int
        } else {
            s.len() - i
        };
        let lo = if i >= 0x1FFF {
            i - 0x1FFF
        } else {
            0int
        };
        let m = crate::util::best_from(s, lo, i - 1, i, limit);
        crate::util::lemma_best_from_greedy(s, lo, i - 1, i, limit);
        if m.1 >= 2 {
            crate::util::lemma_count_eq_bounds(s, i, m.0, limit);
            let o = i - m.0;
            let w1 = swbit(w, true);
            lemma_swbit_ext(w, true);
            let w2 = if o <= 0xFF {
                swbits(swbit(w1, false), 8, o)
            } else {
                swbits(swbit(w1, true), 13, o)
            };
            if o <= 0xFF {
                lemma_swbit_ext(w1, false);
                lemma_swbits_ext(swbit(w1, false), 8, o);
                lemma_wext_trans(w, w1, swbit(w1, false));
                lemma_wext_trans(w, swbit(w1, false), w2);
            } else {
                lemma_swbit_ext(w1, true);
                lemma_swbits_ext(swbit(w1, true), 13, o);
                lemma_wext_trans(w, w1, swbit(w1, true));
                lemma_wext_trans(w, swbit(w1, true), w2);
            }
            let w3 = swcount(w2, m.1);
            lemma_swcount_ext(w2, m.1);
            lemma_wext_trans(w, w2, w3);
            lemma_enc2_ext(s, i + m.1, w3);
            lemma_wext_trans(w, w3, enc2(s, i + m.1, w3));
        } else {
            let w1 = swbit(w, false);
            lemma_swbit_ext(w, false);
            let w2 = swbyte(w1, s[i]);
            lemma_swbyte_ext(w1, s[i]);
            lemma_wext_trans(w, w1, w2);
            lemma_enc2_ext(s, i + 1, w2);
            lemma_wext_trans(w, w2, enc2(s, i + 1, w2));
        }
    }
}


/// The copy-token writer: control bit 1, the offset family bit, the 8- or
/// 13-bit offset, then the count code.
pub open spec fn wcopy(w: WState, o: int, n: int) -> WState {
    let w1 = swbit(w, true);
    let w2 = if o <= 0xFF {
        swbits(swbit(w1, false), 8, o)
    } else {
        swbits(swbit(w1, true), 13, o)
    };
    swcount(w2, n)
}

/// Reading a whole copy token back: the two control bits, the offset and
/// the count come out exactly as written.
proof fn lemma_copy_token_reads(
    w: WState,
    o: int,
    n: int,
    wfin: WState,
    data: Seq<u8>,
)
    requires
        wwf(w),
        1 <= o <= 0x1FFF,
        2 <= n <= 269,
        data == wfin.buf,
        wext(wcopy(w, o, n), wfin),
    ensures
        wwf(wcopy(w, o, n)),
        ({
            let w1 = swbit(w, true);
            let wa = swbit(w1, !(o <= 0xFF));
            let w2 = if o <= 0xFF {
                swbits(wa, 8, o)
            } else {
                swbits(wa, 13, o)
            };
            &&& sbit(data, rstate(w, data)) == Ok::<(bool, BState), crate::Error>(
                (true, rstate(w1, data)),
            )
            &&& sbit(data, rstate(w1, data)) == Ok::<(bool, BState), crate::Error>(
                (!(o <= 0xFF), rstate(wa, data)),
            )
            &&& crate::bits::sbits(
                data,
                rstate(wa, data),
                if o <= 0xFF {
                    8nat
                } else {
                    13nat
                },
            ) == Ok::<(int, BState), crate::Error>((o, rstate(w2, data)))
            &&& scount(data, rstate(w2, data)) == Ok::<(int, BState), crate::Error>(
                (n, rstate(wcopy(w, o, n), data)),
            )
        }),
{
    lemma2_to64();
    let w1 = swbit(w, true);
    lemma_swbit_ext(w, true);
    let wa = swbit(w1, !(o <= 0xFF));
    lemma_swbit_ext(w1, !(o <= 0xFF));
    let w2 = if o <= 0xFF {
        swbits(wa, 8, o)
    } else {
        swbits(wa, 13, o)
    };
    if o <= 0xFF {
        lemma_swbits_ext(wa, 8, o);
    } else {
        lemma_swbits_ext(wa, 13, o);
    }
    let w3 = swcount(w2, n);
    lemma_swcount_ext(w2, n);
    lemma_wext_trans(w2, w3, wfin);
    lemma_wext_trans(wa, w2, wfin);
    lemma_wext_trans(w1, wa, wfin);
    lemma_sbit_reads(w, true, wfin, data);
    lemma_sbit_reads(w1, !(o <= 0xFF), wfin, data);
    if o <= 0xFF {
        lemma_swbits_reads(wa, 8, o, wfin, data);
    } else {
        lemma_swbits_reads(wa, 13, o, wfin, data);
    }
    lemma_swcount_reads(w2, n, wfin, data);
}

/// Reading the end-of-stream token back.
proof fn lemma_eos_reads(w: WState, wfin: WState, data: Seq<u8>)
    requires
        wwf(w),
        data == wfin.buf,
        wext(swbits(swbit(swbit(w, true), true), 13, 0), wfin),
    ensures
        ({
            let w1 = swbit(w, true);
            let w2 = swbit(w1, true);
            &&& sbit(data, rstate(w, data)) == Ok::<(bool, BState), crate::Error>(
                (true, rstate(w1, data)),
            )
            &&& sbit(data, rstate(w1, data)) == Ok::<(bool, BState), crate::Error>(
                (true, rstate(w2, data)),
            )
            &&& crate::bits::sbits(data, rstate(w2, data), 13) == Ok::<
                (int, BState),
                crate::Error,
            >((0, rstate(swbits(w2, 13, 0), data)))
        }),
{
    lemma2_to64();
    let w1 = swbit(w, true);
    let w2 = swbit(w1, true);
    lemma_swbit_ext(w, true);
    lemma_swbit_ext(w1, true);
    lemma_swbits_ext(w2, 13, 0);
    lemma_wext_trans(w2, swbits(w2, 13, 0), wfin);
    lemma_wext_trans(w1, w2, wfin);
    lemma_sbit_reads(w, true, wfin, data);
    lemma_sbit_reads(w1, true, wfin, data);
    lemma_swbits_reads(w2, 13, 0, wfin, data);
}

/// A copy token's writer extends the writer.
proof fn lemma_wcopy_ext(w: WState, o: int, n: int)
    requires
        wwf(w),
    ensures
        wwf(wcopy(w, o, n)),
        wext(w, wcopy(w, o, n)),
{
    let w1 = swbit(w, true);
    lemma_swbit_ext(w, true);
    let wa = swbit(w1, !(o <= 0xFF));
    lemma_swbit_ext(w1, !(o <= 0xFF));
    lemma_wext_trans(w, w1, wa);
    let w2 = if o <= 0xFF {
        swbits(wa, 8, o)
    } else {
        swbits(wa, 13, o)
    };
    if o <= 0xFF {
        lemma_swbits_ext(wa, 8, o);
    } else {
        lemma_swbits_ext(wa, 13, o);
    }
    lemma_wext_trans(w, wa, w2);
    lemma_swcount_ext(w2, n);
    lemma_wext_trans(w, w2, swcount(w2, n));
}

/// Decoding what the mode 2 encoder emits, from any matching writer and
/// reader position, appends exactly the rest of the encoder's input.
#[verifier::rlimit(100)]
#[verifier::spinoff_prover]
proof fn lemma_enc2_decodes(s: Seq<u8>, i: int, w: WState, out: Seq<u8>, floor: int)
    requires
        0 <= i <= s.len(),
        wwf(w),
        0 <= floor,
        out.len() == floor + i,
        out.subrange(floor, out.len() as int) == s.subrange(0, i),
    ensures
        crate::bzip::decompress::decode2(
            enc2(s, i, w).buf,
            rstate(w, enc2(s, i, w).buf),
            out,
            floor,
        ) == Ok::<Seq<u8>, crate::Error>(out + s.subrange(i, s.len() as int)),
    decreases s.len() - i, 1int,
{
    let wfin = enc2(s, i, w);
    let data = wfin.buf;
    lemma_enc2_ext(s, i, w);
    if i >= s.len() {
        lemma_wext_refl(wfin);
        lemma_eos_reads(w, wfin, data);
        assert(out + s.subrange(i, s.len() as int) =~= out);
    } else {
        let limit = if s.len() - i >= 269 {
            269int
        } else {
            s.len() - i
        };
        let lo = if i >= 0x1FFF {
            i - 0x1FFF
        } else {
            0int
        };
        let m = crate::util::best_from(s, lo, i - 1, i, limit);
        crate::util::lemma_best_from_greedy(s, lo, i - 1, i, limit);
        if m.1 >= 2 {
            lemma_enc2_decodes_match(s, i, w, out, floor);
        } else {
            lemma_enc2_decodes_literal(s, i, w, out, floor);
        }
    }
}

/// The copy-token step of the induction.
#[verifier::rlimit(100)]
#[verifier::spinoff_prover]
proof fn lemma_enc2_decodes_match(s: Seq<u8>, i: int, w: WState, out: Seq<u8>, floor: int)
    requires
        0 <= i < s.len(),
        wwf(w),
        0 <= floor,
        out.len() == floor + i,
        out.subrange(floor, out.len() as int) == s.subrange(0, i),
        ({
            let limit = if s.len() - i >= 269 {
                269int
            } else {
                s.len() - i
            };
            let lo = if i >= 0x1FFF {
                i - 0x1FFF
            } else {
                0int
            };
            crate::util::best_from(s, lo, i - 1, i, limit).1 >= 2
        }),
    ensures
        crate::bzip::decompress::decode2(
            enc2(s, i, w).buf,
            rstate(w, enc2(s, i, w).buf),
            out,
            floor,
        ) == Ok::<Seq<u8>, crate::Error>(out + s.subrange(i, s.len() as int)),
    decreases s.len() - i, 0int,
{
    let wfin = enc2(s, i, w);
    let data = wfin.buf;
    let limit = if s.len() - i >= 269 {
        269int
    } else {
        s.len() - i
    };
    let lo = if i >= 0x1FFF {
        i - 0x1FFF
    } else {
        0int
    };
    let m = crate::util::best_from(s, lo, i - 1, i, limit);
    crate::util::lemma_best_from_greedy(s, lo, i - 1, i, limit);
    crate::util::lemma_count_eq_bounds(s, i, m.0, limit);
    crate::util::lemma_count_eq_exact(s, i, m.0, limit);
    let o = i - m.0;
    let w3 = wcopy(w, o, m.1);
    assert(wfin == enc2(s, i + m.1, w3));
    lemma_wcopy_ext(w, o, m.1);
    lemma_enc2_ext(s, i + m.1, w3);
    lemma_copy_token_reads(w, o, m.1, wfin, data);
    assert forall|t: int| 0 <= t < m.1 implies s[m.0 + t] == #[trigger] s[i + t] by {
        assert(s[i + t] == s[m.0 + t]);
    }
    crate::sink::lemma_repeat_of_match(out, floor, s, i, m.0, m.1 as nat);
    let out2 = crate::sink::spec_repeat(out, o, m.1 as nat);
    assert(out2.subrange(floor, out2.len() as int) =~= s.subrange(0, i + m.1));
    lemma_enc2_decodes(s, i + m.1, w3, out2, floor);
    assert(out2 + s.subrange(i + m.1, s.len() as int) =~= out + s.subrange(i, s.len() as int));
}

/// The literal step of the induction.
#[verifier::rlimit(100)]
#[verifier::spinoff_prover]
proof fn lemma_enc2_decodes_literal(s: Seq<u8>, i: int, w: WState, out: Seq<u8>, floor: int)
    requires
        0 <= i < s.len(),
        wwf(w),
        0 <= floor,
        out.len() == floor + i,
        out.subrange(floor, out.len() as int) == s.subrange(0, i),
        ({
            let limit = if s.len() - i >= 269 {
                269int
            } else {
                s.len() - i
            };
            let lo = if i >= 0x1FFF {
                i - 0x1FFF
            } else {
                0int
            };
            crate::util::best_from(s, lo, i - 1, i, limit).1 < 2
        }),
    ensures
        crate::bzip::decompress::decode2(
            enc2(s, i, w).buf,
            rstate(w, enc2(s, i, w).buf),
            out,
            floor,
        ) == Ok::<Seq<u8>, crate::Error>(out + s.subrange(i, s.len() as int)),
    decreases s.len() - i, 0int,
{
    let wfin = enc2(s, i, w);
    let data = wfin.buf;
    let w1 = swbit(w, false);
    lemma_swbit_ext(w, false);
    let w2 = swbyte(w1, s[i]);
    lemma_swbyte_ext(w1, s[i]);
    lemma_enc2_ext(s, i + 1, w2);
    assert(wfin == enc2(s, i + 1, w2));
    lemma_wext_trans(w1, w2, wfin);
    lemma_sbit_reads(w, false, wfin, data);
    lemma_byte_reads(w1, s[i], wfin, data);
    let out2 = out.push(s[i]);
    assert(out2.subrange(floor, out2.len() as int) =~= s.subrange(0, i + 1));
    lemma_enc2_decodes(s, i + 1, w2, out2, floor);
    assert(out2 + s.subrange(i + 1, s.len() as int) =~= out + s.subrange(i, s.len() as int));
}

/// The mode 2 round trip: decompressing what the mode 2 encoder produced
/// appends exactly the encoder's input, for every byte sequence and every
/// starting output buffer.
pub proof fn lemma_mode2_round_trip(s: Seq<u8>, out: Seq<u8>)
    ensures
        crate::bzip::decompress::spec_decompress(enc2_full(s), out) == Ok::<
            Seq<u8>,
            crate::Error,
        >(out + s),
{
    lemma2_to64();
    let w0 = WState { buf: seq![0u8, 0u8], ctrl: 0, used: 8 };
    assert(le16_at(w0.buf, 0) == 0);
    assert(wwf(w0));
    let wfin = enc2(s, 0, w0);
    let data = wfin.buf;
    lemma_enc2_ext(s, 0, w0);
    assert(data.len() >= 2);
    // the mode discriminator byte survives every later write
    assert(le16_at(data, 0) % pow2(8) as int == 0);
    assert(data[0] == 0) by {
        assert(le16_at(data, 0) == data[0] + 0x100 * data[1]);
        assert((data[0] + 0x100 * data[1]) % 0x100 == data[0]) by (nonlinear_arith)
            requires
                0 <= data[0] < 0x100,
                0 <= data[1],
        ;
    }
    assert(crate::bzip::decompress::prime_state(data) == rstate(w0, data)) by {
        assert(w0.buf.len() == 2);
    }
    assert(out.subrange(out.len() as int, out.len() as int) =~= s.subrange(0, 0));
    lemma_enc2_decodes(s, 0, w0, out, out.len() as int);
    assert(out + s.subrange(0, s.len() as int) =~= out + s);
    assert(enc2_full(s) == data);
}

} // verus!
