//! The bit reader used by BZip mode 2: a little-endian, 16-bit-refilled,
//! LSB-first bit stream layered over the byte cursor.
//!
//! An *n*-bit unsigned read is `n mod 8` single bits MSB-first followed by
//! `n div 8` whole bytes MSB-first — wide fields are bytes-within-bits, not
//! bits-within-bytes. The reference byte stream depends on this split.

use vstd::arithmetic::power2::lemma2_to64;
use vstd::arithmetic::power2::lemma_pow2_adds;
use vstd::arithmetic::power2::lemma_pow2_pos;
use vstd::arithmetic::power2::lemma_pow2_unfold;
use vstd::arithmetic::power2::pow2;
use vstd::prelude::*;

use crate::cursor::le16_at;
use crate::cursor::Reader;
use crate::Error;

verus! {

/// The `avail` low bits of `b`, least significant first.
pub open spec fn bits_view(b: nat, avail: nat) -> Seq<bool>
    decreases avail,
{
    if avail == 0 {
        Seq::empty()
    } else {
        seq![b % 2 == 1] + bits_view(b / 2, (avail - 1) as nat)
    }
}

/// The abstract state of bit-level decoding: the bits still buffered from
/// the last 16-bit refill, and the byte cursor's position.
pub ghost struct BState {
    pub bits: Seq<bool>,
    pub pos: int,
}

pub open spec fn bwf(data: Seq<u8>, st: BState) -> bool {
    0 <= st.pos <= data.len()
}

/// One bit: the head of the buffer if any bits remain, else a refill from
/// the little-endian 16-bit word at the cursor.
pub open spec fn sbit(data: Seq<u8>, st: BState) -> Result<(bool, BState), Error> {
    if st.bits.len() > 0 {
        Ok((st.bits[0], BState { bits: st.bits.skip(1), pos: st.pos }))
    } else if st.pos + 2 <= data.len() {
        let w = le16_at(data, st.pos) as nat;
        Ok((bits_view(w, 16)[0], BState { bits: bits_view(w, 16).skip(1), pos: st.pos + 2 }))
    } else {
        Err(Error::Read { pos: st.pos as usize })
    }
}

/// `k` single-bit reads, shifting each into `acc` from the right.
pub open spec fn sbits_acc(data: Seq<u8>, st: BState, k: nat, acc: int) -> Result<
    (int, BState),
    Error,
>
    decreases k,
{
    if k == 0 {
        Ok((acc, st))
    } else {
        match sbit(data, st) {
            Ok((b, st1)) => sbits_acc(data, st1, (k - 1) as nat, acc * 2 + if b {
                1int
            } else {
                0int
            }),
            Err(e) => Err(e),
        }
    }
}

/// `m` whole-byte reads straight off the cursor, shifting each into `acc`.
pub open spec fn sbytes_acc(data: Seq<u8>, st: BState, m: nat, acc: int) -> Result<
    (int, BState),
    Error,
>
    decreases m,
{
    if m == 0 {
        Ok((acc, st))
    } else if st.pos + 1 <= data.len() {
        sbytes_acc(
            data,
            BState { bits: st.bits, pos: st.pos + 1 },
            (m - 1) as nat,
            acc * 256 + data[st.pos],
        )
    } else {
        Err(Error::Read { pos: st.pos as usize })
    }
}

/// An `n`-bit unsigned read: `n mod 8` single bits MSB-first, then
/// `n div 8` whole bytes MSB-first.
pub open spec fn sbits(data: Seq<u8>, st: BState, n: nat) -> Result<(int, BState), Error> {
    match sbits_acc(data, st, n % 8, 0) {
        Ok((x, st1)) => sbytes_acc(data, st1, n / 8, x),
        Err(e) => Err(e),
    }
}

/// The variable-length count code shared by the mode 2 back-reference
/// families: unary prefixes select 2, 3, 4, 5, then `6 + 3 bits`, then
/// `14 + 8 bits`.
pub open spec fn scount(data: Seq<u8>, st: BState) -> Result<(int, BState), Error> {
    match sbit(data, st) {
        Err(e) => Err(e),
        Ok((b1, st1)) => if b1 {
            Ok((2, st1))
        } else {
            match sbit(data, st1) {
                Err(e) => Err(e),
                Ok((b2, st2)) => if b2 {
                    Ok((3, st2))
                } else {
                    match sbit(data, st2) {
                        Err(e) => Err(e),
                        Ok((b3, st3)) => if b3 {
                            Ok((4, st3))
                        } else {
                            match sbit(data, st3) {
                                Err(e) => Err(e),
                                Ok((b4, st4)) => if b4 {
                                    Ok((5, st4))
                                } else {
                                    match sbit(data, st4) {
                                        Err(e) => Err(e),
                                        Ok((b5, st5)) => if b5 {
                                            match sbits(data, st5, 3) {
                                                Ok((x, st6)) => Ok((6 + x, st6)),
                                                Err(e) => Err(e),
                                            }
                                        } else {
                                            match sbits(data, st5, 8) {
                                                Ok((x, st6)) => Ok((14 + x, st6)),
                                                Err(e) => Err(e),
                                            }
                                        },
                                    }
                                },
                            }
                        },
                    }
                },
            }
        },
    }
}

/// Bits still to be read, counting buffered bits once and unread bytes
/// eight times: every primitive read strictly shrinks it.
pub open spec fn bmeasure(data: Seq<u8>, st: BState) -> int {
    8 * (data.len() - st.pos) + st.bits.len()
}

/// `bits_view` always has exactly `avail` entries.
pub proof fn lemma_bits_view_len(b: nat, avail: nat)
    ensures
        bits_view(b, avail).len() == avail,
    decreases avail,
{
    if avail > 0 {
        lemma_bits_view_len(b / 2, (avail - 1) as nat);
    }
}

/// Each entry of the view is the corresponding binary digit.
pub proof fn lemma_bits_view_index(b: nat, avail: nat, i: int)
    requires
        0 <= i < avail,
    ensures
        bits_view(b, avail)[i] == (b / pow2(i as nat) % 2 == 1),
    decreases avail,
{
    lemma_bits_view_len(b, avail);
    if i == 0 {
        assert(pow2(0) == 1) by {
            lemma2_to64();
        }
        assert(b / 1 == b) by (nonlinear_arith);
        assert(bits_view(b, avail)[0] == (b % 2 == 1));
    } else {
        lemma_bits_view_index(b / 2, (avail - 1) as nat, i - 1);
        lemma_pow2_unfold(i as nat);
        lemma_pow2_pos((i - 1) as nat);
        assert(b / 2 / pow2((i - 1) as nat) == b / pow2(i as nat)) by {
            vstd::arithmetic::div_mod::lemma_div_denominator(
                b as int,
                2,
                pow2((i - 1) as nat) as int,
            );
        }
    }
}

/// Discarding the `k` low bits of the buffer by division is the same as
/// skipping the first `k` entries of its view.
pub proof fn lemma_bits_view_div(b: nat, a: nat, k: nat)
    requires
        k <= a,
    ensures
        bits_view(b / pow2(k), (a - k) as nat) == bits_view(b, a).skip(k as int),
    decreases k,
{
    lemma_bits_view_len(b, a);
    if k == 0 {
        assert(pow2(0) == 1) by {
            lemma2_to64();
        }
        assert(bits_view(b / pow2(0), a) =~= bits_view(b, a).skip(0));
    } else {
        lemma_bits_view_div(b / 2, (a - 1) as nat, (k - 1) as nat);
        lemma_pow2_unfold(k);
        lemma_pow2_pos((k - 1) as nat);
        assert(b / 2 / pow2((k - 1) as nat) == b / pow2(k)) by {
            vstd::arithmetic::div_mod::lemma_div_denominator(
                b as int,
                2,
                pow2((k - 1) as nat) as int,
            );
        }
        lemma_bits_view_len(b / 2, (a - 1) as nat);
        assert(bits_view(b, a).skip(k as int) =~= bits_view(b / 2, (a - 1) as nat).skip(
            k - 1 as int,
        ));
    }
}

pub proof fn lemma_sbit_measure(data: Seq<u8>, st: BState)
    requires
        bwf(data, st),
    ensures
        sbit(data, st) matches Ok((b, st1)) ==> bwf(data, st1) && bmeasure(data, st1) < bmeasure(
            data,
            st,
        ),
{
    if st.bits.len() == 0 && st.pos + 2 <= data.len() {
        lemma_bits_view_len(le16_at(data, st.pos) as nat, 16);
    }
}

pub proof fn lemma_sbits_acc_measure(data: Seq<u8>, st: BState, k: nat, acc: int)
    requires
        bwf(data, st),
    ensures
        sbits_acc(data, st, k, acc) matches Ok((x, st1)) ==> bwf(data, st1) && bmeasure(data, st1)
            + k <= bmeasure(data, st),
    decreases k,
{
    if k > 0 {
        lemma_sbit_measure(data, st);
        match sbit(data, st) {
            Ok((b, st1)) => {
                lemma_sbits_acc_measure(data, st1, (k - 1) as nat, acc * 2 + if b {
                    1int
                } else {
                    0int
                });
            },
            Err(e) => {},
        }
    }
}

pub proof fn lemma_sbytes_acc_measure(data: Seq<u8>, st: BState, m: nat, acc: int)
    requires
        bwf(data, st),
    ensures
        sbytes_acc(data, st, m, acc) matches Ok((x, st1)) ==> bwf(data, st1) && bmeasure(data, st1)
            + 8 * m <= bmeasure(data, st),
    decreases m,
{
    if m > 0 && st.pos + 1 <= data.len() {
        lemma_sbytes_acc_measure(
            data,
            BState { bits: st.bits, pos: st.pos + 1 },
            (m - 1) as nat,
            acc * 256 + data[st.pos],
        );
    }
}

pub proof fn lemma_sbits_measure(data: Seq<u8>, st: BState, n: nat)
    requires
        bwf(data, st),
    ensures
        sbits(data, st, n) matches Ok((x, st1)) ==> bwf(data, st1) && bmeasure(data, st1) + n
            <= bmeasure(data, st),
{
    lemma_sbits_acc_measure(data, st, n % 8, 0);
    match sbits_acc(data, st, n % 8, 0) {
        Ok((x, st1)) => {
            lemma_sbytes_acc_measure(data, st1, n / 8, x);
        },
        Err(e) => {},
    }
}

pub proof fn lemma_scount_measure(data: Seq<u8>, st: BState)
    requires
        bwf(data, st),
    ensures
        scount(data, st) matches Ok((c, st1)) ==> bwf(data, st1) && bmeasure(data, st1) < bmeasure(
            data,
            st,
        ),
{
    lemma_sbit_measure(data, st);
    match sbit(data, st) {
        Err(e) => {},
        Ok((b1, st1)) => {
            lemma_sbit_measure(data, st1);
            match sbit(data, st1) {
                Err(e) => {},
                Ok((b2, st2)) => {
                    lemma_sbit_measure(data, st2);
                    match sbit(data, st2) {
                        Err(e) => {},
                        Ok((b3, st3)) => {
                            lemma_sbit_measure(data, st3);
                            match sbit(data, st3) {
                                Err(e) => {},
                                Ok((b4, st4)) => {
                                    lemma_sbit_measure(data, st4);
                                    match sbit(data, st4) {
                                        Err(e) => {},
                                        Ok((b5, st5)) => {
                                            lemma_sbits_measure(data, st5, 3);
                                            lemma_sbits_measure(data, st5, 8);
                                        },
                                    }
                                },
                            }
                        },
                    }
                },
            }
        },
    }
}

/// The count code never yields less than 2 nor more than 269.
pub proof fn lemma_scount_range(data: Seq<u8>, st: BState)
    ensures
        scount(data, st) matches Ok((c, st1)) ==> 2 <= c <= 269,
{
    if scount(data, st) is Ok {
        lemma_sbits_acc_range_all();
    }
}

proof fn lemma_sbits_acc_range(data: Seq<u8>, st: BState, k: nat, acc: int)
    requires
        acc >= 0,
    ensures
        sbits_acc(data, st, k, acc) matches Ok((x, st1)) ==> acc * pow2(k) <= x < (acc + 1) * pow2(
            k,
        ),
    decreases k,
{
    lemma_pow2_pos(k);
    lemma2_to64();
    if k > 0 {
        lemma_pow2_unfold(k);
        match sbit(data, st) {
            Ok((b, st1)) => {
                let acc1 = acc * 2 + if b {
                    1int
                } else {
                    0int
                };
                lemma_sbits_acc_range(data, st1, (k - 1) as nat, acc1);
                lemma_pow2_pos((k - 1) as nat);
                assert(acc1 * pow2((k - 1) as nat) >= acc * pow2(k)) by (nonlinear_arith)
                    requires
                        acc >= 0,
                        acc1 >= acc * 2,
                        pow2(k) == 2 * pow2((k - 1) as nat),
                        pow2((k - 1) as nat) > 0,
                ;
                assert((acc1 + 1) * pow2((k - 1) as nat) <= (acc + 1) * pow2(k))
                    by (nonlinear_arith)
                    requires
                        acc1 <= acc * 2 + 1,
                        pow2(k) == 2 * pow2((k - 1) as nat),
                        pow2((k - 1) as nat) > 0,
                ;
            },
            Err(e) => {},
        }
    }
}

proof fn lemma_sbytes_acc_range(data: Seq<u8>, st: BState, m: nat, acc: int)
    requires
        acc >= 0,
    ensures
        sbytes_acc(data, st, m, acc) matches Ok((x, st1)) ==> acc * pow2(8 * m) <= x < (acc + 1)
            * pow2(8 * m),
    decreases m,
{
    lemma_pow2_pos(8 * m);
    lemma2_to64();
    if m > 0 && st.pos + 1 <= data.len() {
        let acc1 = acc * 256 + data[st.pos];
        let m1 = (m - 1) as nat;
        lemma_sbytes_acc_range(data, BState { bits: st.bits, pos: st.pos + 1 }, m1, acc1);
        lemma_pow2_pos(8 * m1);
        lemma_pow2_adds(8 * m1, 8);
        lemma2_to64();
        assert(acc1 * pow2(8 * m1) >= acc * pow2(8 * m)) by (nonlinear_arith)
            requires
                acc >= 0,
                acc1 >= acc * 256,
                pow2(8 * m) == pow2(8 * m1) * 256,
                pow2(8 * m1) > 0,
        ;
        assert((acc1 + 1) * pow2(8 * m1) <= (acc + 1) * pow2(8 * m)) by (nonlinear_arith)
            requires
                acc1 <= acc * 256 + 255,
                pow2(8 * m) == pow2(8 * m1) * 256,
                pow2(8 * m1) > 0,
        ;
    }
}

/// An `n`-bit read yields a value below `pow2(n)`.
pub proof fn lemma_sbits_range(data: Seq<u8>, st: BState, n: nat)
    ensures
        sbits(data, st, n) matches Ok((x, st1)) ==> 0 <= x < pow2(n),
{
    lemma_sbits_acc_range(data, st, n % 8, 0);
    match sbits_acc(data, st, n % 8, 0) {
        Ok((x, st1)) => {
            lemma_sbytes_acc_range(data, st1, n / 8, x);
            lemma_pow2_adds(n % 8, 8 * (n / 8));
            lemma_pow2_pos(n % 8);
            lemma_pow2_pos(8 * (n / 8));
            assert(n % 8 + 8 * (n / 8) == n) by (nonlinear_arith);
            assert((x + 1) * pow2(8 * (n / 8)) <= pow2(n % 8) * pow2(8 * (n / 8)))
                by (nonlinear_arith)
                requires
                    x < pow2(n % 8),
                    pow2(8 * (n / 8)) > 0,
            ;
        },
        Err(e) => {},
    }
}

proof fn lemma_sbits_acc_range_all()
    ensures
        forall|data: Seq<u8>, st: BState, n: nat|
            #[trigger] sbits(data, st, n) is Ok ==> 0 <= sbits(data, st, n)->Ok_0.0 < pow2(n),
        pow2(3) == 8,
        pow2(8) == 256,
{
    assert forall|data: Seq<u8>, st: BState, n: nat| #[trigger] sbits(data, st, n) is Ok implies 0
        <= sbits(data, st, n)->Ok_0.0 < pow2(n) by {
        lemma_sbits_range(data, st, n);
    }
    lemma2_to64();
}

proof fn lemma_consume_from_buffer(data: Seq<u8>, st: BState, k: nat)
    requires
        st.bits.len() >= k,
    ensures
        sbits_acc(data, st, k, 0) matches Ok((x, st1)) && st1.bits =~= st.bits.skip(k as int)
            && st1.pos == st.pos,
    decreases k,
{
    if k > 0 {
        let st1 = BState { bits: st.bits.skip(1), pos: st.pos };
        lemma_consume_from_buffer(data, st1, (k - 1) as nat);
        match sbits_acc(data, st1, (k - 1) as nat, 0) {
            Ok((x1, stk)) => {
                lemma_sbits_acc_shift(data, st1, (k - 1) as nat, 0, if st.bits[0] {
                    1int
                } else {
                    0int
                });
                assert(st1.bits.skip(k - 1) =~= st.bits.skip(k as int));
            },
            Err(e) => {},
        }
    }
}

/// Changing the accumulator changes only the value read, never the state
/// reached or whether the read succeeds.
proof fn lemma_sbits_acc_shift(data: Seq<u8>, st: BState, k: nat, a1: int, a2: int)
    ensures
        sbits_acc(data, st, k, a1) is Ok <==> sbits_acc(data, st, k, a2) is Ok,
        sbits_acc(data, st, k, a1) matches Ok((x, st1)) ==> sbits_acc(data, st, k, a2)->Ok_0.1
            == st1,
    decreases k,
{
    if k > 0 {
        match sbit(data, st) {
            Ok((b, stn)) => {
                let d = if b {
                    1int
                } else {
                    0int
                };
                lemma_sbits_acc_shift(data, stn, (k - 1) as nat, a1 * 2 + d, a2 * 2 + d);
            },
            Err(e) => {},
        }
    }
}

/// Consuming exactly sixteen bits from a refill boundary leaves the reader
/// with an empty buffer two bytes further on — the same state, observably,
/// as one freshly refilled from the next 16-bit word: the next bit read
/// returns the low bit of that word and buffers the rest.
pub proof fn lemma_refill_boundary(data: Seq<u8>, p: int)
    requires
        0 <= p,
        p + 2 <= data.len(),
    ensures
        ({
            let start = BState { bits: Seq::<bool>::empty(), pos: p };
            let drained = BState { bits: Seq::<bool>::empty(), pos: p + 2 };
            let refilled = BState {
                bits: bits_view(le16_at(data, p + 2) as nat, 16),
                pos: p + 4,
            };
            sbits_acc(data, start, 16, 0) matches Ok((x, st16)) && st16 == drained && (p + 4
                <= data.len() ==> sbit(data, drained) == sbit(data, refilled))
        }),
{
    let start = BState { bits: Seq::<bool>::empty(), pos: p };
    let w = le16_at(data, p) as nat;
    lemma_bits_view_len(w, 16);
    let st1 = BState { bits: bits_view(w, 16).skip(1), pos: p + 2 };
    lemma_consume_from_buffer(data, st1, 15);
    lemma_sbits_acc_shift(data, st1, 15, 0, if bits_view(w, 16)[0] {
        1int
    } else {
        0int
    });
    let st16 = sbits_acc(data, start, 16, 0)->Ok_0.1;
    assert(st16.bits =~= Seq::<bool>::empty());
    if p + 4 <= data.len() {
        let w2 = le16_at(data, p + 2) as nat;
        lemma_bits_view_len(w2, 16);
        let drained = BState { bits: Seq::<bool>::empty(), pos: p + 2 };
        let refilled = BState { bits: bits_view(w2, 16), pos: p + 4 };
        assert(sbit(data, drained)->Ok_0.1.bits =~= sbit(data, refilled)->Ok_0.1.bits);
        assert(sbit(data, drained)->Ok_0.0 == sbit(data, refilled)->Ok_0.0);
        assert(sbit(data, drained)->Ok_0.1 == sbit(data, refilled)->Ok_0.1);
    }
}

/// The bit reader proper: a 16-bit buffer consumed least significant bit
/// first. `avail` counts the bits not yet consumed; the low bit of `bits`
/// is always the next to be returned, so consuming shifts the buffer down.
pub struct Bits {
    pub bits: u16,
    pub avail: u8,
}

impl Bits {
    /// The buffered bits, next-to-be-read first.
    pub open spec fn buffered(&self) -> Seq<bool> {
        bits_view(self.bits as nat, self.avail as nat)
    }

    /// The abstract decoding state formed with a cursor.
    pub open spec fn st(&self, f: &Reader<'_>) -> BState {
        BState { bits: self.buffered(), pos: f.position() }
    }

    pub fn new() -> (r: Bits)
        ensures
            r.buffered() == Seq::<bool>::empty(),
    {
        Bits { bits: 0, avail: 0 }
    }

    /// Reads one bit, refilling from a 16-bit little-endian word when the
    /// buffer is exhausted.
    pub fn bit(&mut self, f: &mut Reader<'_>) -> (r: Result<bool, Error>)
        requires
            old(f).wf(),
        ensures
            final(f).wf(),
            final(f).data_seq() == old(f).data_seq(),
            match sbit(old(f).data_seq(), old(self).st(old(f))) {
                Ok((b, st1)) => r == Ok::<bool, Error>(b) && final(self).buffered() == st1.bits
                    && final(f).position() == st1.pos,
                Err(e) => r == Err::<bool, Error>(e) && *final(self) == *old(self) && *final(f)
                    == *old(f),
            },
    {
        if self.avail == 0 {
            let w = match f.u16() {
                Ok(w) => w,
                Err(e) => {
                    return Err(e);
                },
            };
            self.bits = w;
            self.avail = 16;
        }
        let v = self.bits % 2 == 1;
        proof {
            assert(self.buffered() == seq![self.bits as nat % 2 == 1] + bits_view(
                self.bits as nat / 2,
                (self.avail - 1) as nat,
            ));
            assert(self.buffered().skip(1) =~= bits_view(
                self.bits as nat / 2,
                (self.avail - 1) as nat,
            ));
            assert(self.bits as nat % 2 == (self.bits / 2u16) as nat * 0 + self.bits as nat % 2);
        }
        let ghost pre = *self;
        self.bits = self.bits / 2;
        self.avail = self.avail - 1;
        proof {
            assert(self.bits as nat == pre.bits as nat / 2);
            assert(self.buffered() == pre.buffered().skip(1));
        }
        Ok(v)
    }

    /// Reads an `n`-bit unsigned value: `n mod 8` bits MSB-first, then
    /// `n div 8` whole bytes MSB-first.
    #[verifier::loop_isolation(false)]
    pub fn bits(&mut self, n: usize, f: &mut Reader<'_>) -> (r: Result<usize, Error>)
        requires
            old(f).wf(),
            n <= 16,
        ensures
            final(f).wf(),
            final(f).data_seq() == old(f).data_seq(),
            match sbits(old(f).data_seq(), old(self).st(old(f)), n as nat) {
                Ok((x, st1)) => r == Ok::<usize, Error>(x as usize) && 0 <= x < pow2(n as nat)
                    && final(self).buffered() == st1.bits && final(f).position() == st1.pos,
                Err(e) => r == Err::<usize, Error>(e),
            },
    {
        let ghost data = f.data_seq();
        let ghost st0 = self.st(f);
        proof {
            lemma_sbits_range(data, st0, n as nat);
            lemma2_to64();
        }
        let k = n % 8;
        let m = n / 8;
        let mut x: usize = 0;
        let mut j: usize = 0;
        while j < k
            invariant
                j <= k,
                k <= 7,
                f.wf(),
                f.data_seq() == data,
                0 <= x < pow2(j as nat),
                sbits_acc(data, st0, k as nat, 0) == sbits_acc(
                    data,
                    self.st(f),
                    (k - j) as nat,
                    x as int,
                ),
            decreases k - j,
        {
            proof {
                lemma_pow2_unfold((j + 1) as nat);
                lemma2_to64();
            }
            let ghost st_pre = self.st(f);
            let b = match self.bit(f) {
                Ok(b) => b,
                Err(e) => {
                    proof {
                        assert(sbits_acc(data, st_pre, (k - j) as nat, x as int) == Err::<
                            (int, BState),
                            Error,
                        >(e));
                    }
                    return Err(e);
                },
            };
            x = x * 2 + if b {
                1
            } else {
                0
            };
            j = j + 1;
        }
        proof {
            assert(sbits_acc(data, self.st(f), 0, x as int) == Ok::<(int, BState), Error>(
                (x as int, self.st(f)),
            ));
        }
        let ghost st_mid = self.st(f);
        let mut i: usize = 0;
        while i < m
            invariant
                i <= m,
                m <= 2,
                k <= 7,
                f.wf(),
                f.data_seq() == data,
                0 <= x < pow2((k + 8 * i) as nat),
                k + 8 * i <= 16,
                n <= 16,
                k == n % 8,
                m == n / 8,
                self.buffered() == st_mid.bits,
                sbytes_acc(data, st_mid, m as nat, sbits_acc(data, st0, k as nat, 0)->Ok_0.0)
                    == sbytes_acc(data, self.st(f), (m - i) as nat, x as int),
                sbits_acc(data, st0, k as nat, 0) is Ok,
            decreases m - i,
        {
            proof {
                lemma_pow2_adds((k + 8 * i) as nat, 8);
                lemma2_to64();
            }
            let b = match f.u8() {
                Ok(b) => b,
                Err(e) => {
                    return Err(e);
                },
            };
            x = x * 256 + b as usize;
            i = i + 1;
        }
        Ok(x)
    }

    /// Reads the shared variable-length count code.
    pub fn read_count(&mut self, f: &mut Reader<'_>) -> (r: Result<usize, Error>)
        requires
            old(f).wf(),
        ensures
            final(f).wf(),
            final(f).data_seq() == old(f).data_seq(),
            match scount(old(f).data_seq(), old(self).st(old(f))) {
                Ok((c, st1)) => r == Ok::<usize, Error>(c as usize) && 2 <= c <= 269
                    && final(self).buffered() == st1.bits && final(f).position() == st1.pos,
                Err(e) => r == Err::<usize, Error>(e),
            },
    {
        let ghost data = f.data_seq();
        let ghost st0 = self.st(f);
        proof {
            lemma_scount_range(data, st0);
            lemma_sbits_acc_range_all();
        }
        let c = if self.bit(f)? {
            2
        } else if self.bit(f)? {
            3
        } else if self.bit(f)? {
            4
        } else if self.bit(f)? {
            5
        } else if self.bit(f)? {
            6 + self.bits(3, f)?
        } else {
            14 + self.bits(8, f)?
        };
        Ok(c)
    }
}

} // verus!
