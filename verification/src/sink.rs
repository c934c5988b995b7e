//! The LZ77 output sink: a growable byte buffer with a *floor*, the index
//! below which back-references are illegal. Supports verbatim extension,
//! constant runs, and back-reference copies. Copies are materialized one
//! byte at a time, so a count larger than the offset produces a run, the
//! overlap LZ77 decoders rely on.

use vstd::prelude::*;

use crate::Error;

verus! {

/// `count` copies of `value` appended to `s`.
pub open spec fn spec_constant(s: Seq<u8>, value: u8, count: nat) -> Seq<u8> {
    s + Seq::new(count, |i: int| value)
}

/// `s` extended by `count` bytes copied one at a time from `offset`
/// positions back, the back-reference semantics of every codec here.
pub open spec fn spec_repeat(s: Seq<u8>, offset: int, count: nat) -> Seq<u8>
    decreases count,
{
    if count == 0 {
        s
    } else {
        spec_repeat(s.push(s[s.len() - offset]), offset, (count - 1) as nat)
    }
}

/// A back-reference of `offset` is legal when it is at least 1 and reaches
/// no further down than `floor`.
pub open spec fn repeat_ok(len: int, floor: int, offset: int) -> bool {
    1 <= offset <= len - floor
}

proof fn lemma_spec_repeat_len(s: Seq<u8>, offset: int, count: nat)
    ensures
        spec_repeat(s, offset, count).len() == s.len() + count,
    decreases count,
{
    if count > 0 {
        lemma_spec_repeat_len(s.push(s[s.len() - offset]), offset, (count - 1) as nat);
    }
}

/// The bytes below the starting length are untouched by a repeat, and every
/// appended byte equals the byte `offset` positions before it. This is the
/// defining property of an LZ77 back-reference copy.
pub proof fn lemma_repeat_back_reference(s: Seq<u8>, offset: int, count: nat)
    requires
        1 <= offset <= s.len(),
    ensures
        spec_repeat(s, offset, count).len() == s.len() + count,
        forall|i: int| 0 <= i < s.len() ==> spec_repeat(s, offset, count)[i] == s[i],
        forall|k: int|
            0 <= k < count ==> #[trigger] spec_repeat(s, offset, count)[s.len() + k]
                == spec_repeat(s, offset, count)[s.len() + k - offset],
    decreases count,
{
    lemma_spec_repeat_len(s, offset, count);
    if count > 0 {
        let s1 = s.push(s[s.len() - offset]);
        let c1 = (count - 1) as nat;
        let r = spec_repeat(s, offset, count);
        assert(r == spec_repeat(s1, offset, c1));
        lemma_repeat_back_reference(s1, offset, c1);
        assert forall|i: int| 0 <= i < s.len() implies r[i] == s[i] by {
            assert(spec_repeat(s1, offset, c1)[i] == s1[i]);
        }
        assert forall|k: int|
            0 <= k < count implies #[trigger] r[s.len() + k] == r[s.len() + k - offset] by {
            if k == 0 {
                assert(spec_repeat(s1, offset, c1)[s.len() as int] == s1[s.len() as int]);
                assert(spec_repeat(s1, offset, c1)[s.len() - offset] == s1[s.len() - offset]);
                assert(s1[s.len() as int] == s[s.len() - offset]);
            } else {
                assert(spec_repeat(s1, offset, c1)[s1.len() + (k - 1)] == spec_repeat(
                    s1,
                    offset,
                    c1,
                )[s1.len() + (k - 1) - offset]);
            }
        }
    }
}

/// A back-reference that points at a true match of the source reproduces
/// the source: when the decoded output mirrors `s` up to `i` and
/// `s[start..start+len]` equals `s[i..i+len]`, copying `len` bytes from
/// offset `i - start` appends exactly `s[i..i+len]`. This is why a greedy
/// encoder's copies decode back to its input.
pub proof fn lemma_repeat_of_match(out: Seq<u8>, floor: int, s: Seq<u8>, i: int, start: int, len: nat)
    requires
        0 <= floor,
        out.len() == floor + i,
        0 <= start < i,
        i + len <= s.len(),
        out.subrange(floor, out.len() as int) == s.subrange(0, i),
        forall|t: int| 0 <= t < len ==> s[start + t] == #[trigger] s[i + t],
    ensures
        spec_repeat(out, i - start, len) == out + s.subrange(i, i + len),
    decreases len,
{
    if len == 0 {
        assert(spec_repeat(out, i - start, 0) =~= out + s.subrange(i, i as int));
    } else {
        let d = i - start;
        assert(out[out.len() - d] == s.subrange(0, i)[floor + start - floor]);
        let out1 = out.push(s[i]);
        assert(out[out.len() - d] == s[start]);
        assert(s[start + 0] == s[i + 0]);
        assert(s[start] == s[i]);
        assert(out1 =~= out.push(out[out.len() - d]));
        assert(out1.subrange(floor, out1.len() as int) =~= s.subrange(0, i + 1));
        assert forall|t: int| 0 <= t < len - 1 implies s[start + 1 + t] == #[trigger] s[i + 1
            + t] by {
            assert(s[start + (t + 1)] == s[i + (t + 1)]);
        }
        lemma_repeat_of_match(out1, floor, s, i + 1, start + 1, (len - 1) as nat);
        assert(out1 + s.subrange(i + 1, i + 1 + (len - 1)) =~= out + s.subrange(i, i + len));
    }
}

/// Appends the bytes of `src` verbatim.
pub fn extend_bytes(out: &mut Vec<u8>, src: &[u8])
    ensures
        final(out)@ == old(out)@ + src@,
        old(out)@.is_prefix_of(final(out)@),
{
    let mut i: usize = 0;
    while i < src.len()
        invariant
            i <= src@.len(),
            out@ == old(out)@ + src@.subrange(0, i as int),
        decreases src@.len() - i,
    {
        out.push(src[i]);
        i = i + 1;
        proof {
            assert(out@ =~= old(out)@ + src@.subrange(0, i as int));
        }
    }
    proof {
        assert(out@ =~= old(out)@ + src@);
        assert(old(out)@ =~= out@.subrange(0, old(out)@.len() as int));
    }
}

/// Appends `count` copies of `value`.
pub fn decomp_constant(out: &mut Vec<u8>, count: usize, value: u8)
    ensures
        final(out)@ == spec_constant(old(out)@, value, count as nat),
        old(out)@.is_prefix_of(final(out)@),
{
    let mut i: usize = 0;
    while i < count
        invariant
            i <= count,
            out@ == old(out)@ + Seq::new(i as nat, |j: int| value),
        decreases count - i,
    {
        out.push(value);
        i = i + 1;
        proof {
            assert(out@ =~= old(out)@ + Seq::new(i as nat, |j: int| value));
        }
    }
    proof {
        assert(old(out)@ =~= out@.subrange(0, old(out)@.len() as int));
    }
}

/// Copies `count` bytes from `offset` positions back, one byte at a time.
/// Offsets below 1 or reaching below `floor` fail with `BadRepeat` and
/// leave the buffer unchanged.
pub fn decomp_repeat(out: &mut Vec<u8>, floor: usize, count: usize, offset: usize) -> (r: Result<
    (),
    Error,
>)
    requires
        floor <= old(out)@.len(),
    ensures
        old(out)@.is_prefix_of(final(out)@),
        if repeat_ok(old(out)@.len() as int, floor as int, offset as int) {
            r == Ok::<(), Error>(()) && final(out)@ == spec_repeat(
                old(out)@,
                offset as int,
                count as nat,
            )
        } else {
            r == Err::<(), Error>(
                Error::BadRepeat { count, offset, len: old(out)@.len() as usize },
            ) && *final(out) =~= *old(out)
        },
{
    if offset < 1 || offset > out.len() - floor {
        return Err(Error::BadRepeat { count, offset, len: out.len() });
    }
    let mut i: usize = 0;
    while i < count
        invariant
            i <= count,
            offset >= 1,
            out@.len() == old(out)@.len() + i,
            offset <= old(out)@.len(),
            spec_repeat(out@, offset as int, (count - i) as nat) == spec_repeat(
                old(out)@,
                offset as int,
                count as nat,
            ),
            old(out)@.is_prefix_of(out@),
        decreases count - i,
    {
        let b = out[out.len() - offset];
        out.push(b);
        i = i + 1;
        proof {
            assert(old(out)@ =~= out@.subrange(0, old(out)@.len() as int));
        }
    }
    Ok(())
}

} // verus!
