//! COBS encoding and decoding on byte buffers.
//!
//! The mathematical model lives in the spec functions below: a raw byte
//! sequence is partitioned into maximal zero-free runs of at most 254 bytes,
//! and each run becomes a block of one length-prefix byte followed by the run
//! itself. Decoding inverts that partition, re-inserting a zero after every
//! block whose boundary came from a real zero rather than from the length cap.

use vstd::prelude::*;

verus! {

use vstd::arithmetic::div_mod::lemma_div_is_ordered;
use vstd::arithmetic::div_mod::lemma_div_pos_is_pos;
use vstd::arithmetic::div_mod::lemma_hoist_over_denominator;

/// Length of the longest zero-free prefix of `s`.
pub open spec fn zero_free_prefix(s: Seq<u8>) -> nat
    decreases s.len(),
{
    if s.len() == 0 || s[0] == 0 {
        0
    } else {
        1 + zero_free_prefix(s.skip(1))
    }
}

/// Payload length of the first block cut from `s`: the distance to the next
/// zero byte, capped at 254 and at the end of the sequence.
pub open spec fn head_len(s: Seq<u8>) -> nat {
    if zero_free_prefix(s) <= 254 {
        zero_free_prefix(s)
    } else {
        254
    }
}

proof fn lemma_zero_free_prefix(s: Seq<u8>)
    ensures
        zero_free_prefix(s) <= s.len(),
        forall|i: int| 0 <= i < zero_free_prefix(s) ==> s[i] != 0,
        zero_free_prefix(s) < s.len() ==> s[zero_free_prefix(s) as int] == 0,
    decreases s.len(),
{
    if s.len() == 0 || s[0] == 0 {
    } else {
        lemma_zero_free_prefix(s.skip(1));
        assert forall|i: int| 0 <= i < zero_free_prefix(s) implies s[i] != 0 by {
            if i > 0 {
                assert(s.skip(1)[i - 1] == s[i]);
            }
        }
    }
}

/// Encoding of the remainder `s` of a raw buffer, on the understanding that at
/// least one block is still owed (`s` is either the whole non-empty input or
/// what follows a consumed zero). In particular the empty remainder encodes to
/// the single block `[1]`: the phantom-zero block.
pub open spec fn spec_encode_blocks(s: Seq<u8>) -> Seq<u8>
    decreases s.len(),
{
    let k = head_len(s) as int;
    let block = seq![(k + 1) as u8] + s.take(k);
    if k < s.len() && k < 254 {
        // the run ended on a real zero: consume it and keep going
        block + spec_encode_blocks(s.skip(k + 1))
    } else if k < s.len() {
        // the run was cut by the length cap: no zero is consumed
        block + spec_encode_blocks(s.skip(254))
    } else {
        block
    }
}

/// The COBS encoding of a raw byte sequence.
pub open spec fn spec_encode(s: Seq<u8>) -> Seq<u8> {
    if s.len() == 0 {
        Seq::empty()
    } else {
        spec_encode_blocks(s)
    }
}

/// The COBS decoding of an encoded byte sequence, or `None` when a block's
/// declared payload length reaches past the end of the buffer.
///
/// A prefix byte of 0 is never produced by the encoder; it is treated like a
/// prefix of 1 (an empty payload), not rejected.
pub open spec fn spec_decode(s: Seq<u8>) -> Option<Seq<u8>>
    decreases s.len(),
{
    if s.len() == 0 {
        Some(Seq::empty())
    } else {
        let copy = if s[0] <= 1 { 0int } else { s[0] - 1 };
        if 1 + copy > s.len() {
            None
        } else {
            let rest = s.skip(1 + copy);
            match spec_decode(rest) {
                Option::None => Option::None,
                Option::Some(tail) => {
                    let sep: Seq<u8> = if s[0] != 255 && rest.len() > 0 {
                        seq![0u8]
                    } else {
                        Seq::empty()
                    };
                    Some(s.subrange(1, 1 + copy) + sep + tail)
                },
            }
        }
    }
}

/// The zero-free prefix is exactly `k` when the first `k` bytes are non-zero
/// and a zero (or the end of the sequence) follows.
proof fn lemma_zero_free_prefix_is(s: Seq<u8>, k: int)
    requires
        0 <= k <= s.len(),
        forall|i: int| 0 <= i < k ==> s[i] != 0,
        k < s.len() ==> s[k] == 0,
    ensures
        zero_free_prefix(s) == k,
    decreases k,
{
    if k == 0 {
    } else {
        assert(s[0] != 0);
        assert forall|i: int| 0 <= i < k - 1 implies s.skip(1)[i] != 0 by {
            assert(s.skip(1)[i] == s[i + 1]);
        }
        assert(k - 1 < s.skip(1).len() ==> s.skip(1)[k - 1] == s[k]);
        lemma_zero_free_prefix_is(s.skip(1), k - 1);
    }
}

/// The zero-free prefix is at least `k` when the first `k` bytes are non-zero.
proof fn lemma_zero_free_prefix_at_least(s: Seq<u8>, k: int)
    requires
        0 <= k <= s.len(),
        forall|i: int| 0 <= i < k ==> s[i] != 0,
    ensures
        zero_free_prefix(s) >= k,
    decreases k,
{
    if k > 0 {
        assert(s[0] != 0);
        assert forall|i: int| 0 <= i < k - 1 implies s.skip(1)[i] != 0 by {
            assert(s.skip(1)[i] == s[i + 1]);
        }
        lemma_zero_free_prefix_at_least(s.skip(1), k - 1);
    }
}

proof fn lemma_encode_blocks_len_lower(s: Seq<u8>)
    ensures
        spec_encode_blocks(s).len() > s.len(),
    decreases s.len(),
{
    lemma_zero_free_prefix(s);
    let k = head_len(s) as int;
    if k < s.len() && k < 254 {
        lemma_encode_blocks_len_lower(s.skip(k + 1));
    } else if k < s.len() {
        lemma_encode_blocks_len_lower(s.skip(254));
    }
}

proof fn lemma_encode_blocks_no_zero(s: Seq<u8>)
    ensures
        forall|i: int| 0 <= i < spec_encode_blocks(s).len() ==> spec_encode_blocks(s)[i] != 0,
    decreases s.len(),
{
    lemma_zero_free_prefix(s);
    let k = head_len(s) as int;
    let block = seq![(k + 1) as u8] + s.take(k);
    assert(forall|i: int| 0 <= i < block.len() ==> block[i] != 0) by {
        assert(forall|i: int| 1 <= i < block.len() ==> block[i] == s[i - 1]);
    }
    let e = spec_encode_blocks(s);
    if k < s.len() && k < 254 {
        lemma_encode_blocks_no_zero(s.skip(k + 1));
        let rest = spec_encode_blocks(s.skip(k + 1));
        assert forall|i: int| 0 <= i < e.len() implies e[i] != 0 by {
            if i < block.len() {
                assert(e[i] == block[i]);
            } else {
                assert(e[i] == rest[i - block.len()]);
            }
        }
    } else if k < s.len() {
        lemma_encode_blocks_no_zero(s.skip(254));
        let rest = spec_encode_blocks(s.skip(254));
        assert forall|i: int| 0 <= i < e.len() implies e[i] != 0 by {
            if i < block.len() {
                assert(e[i] == block[i]);
            } else {
                assert(e[i] == rest[i - block.len()]);
            }
        }
    }
}

proof fn lemma_encode_blocks_len_upper(s: Seq<u8>)
    ensures
        s.len() == 0 ==> spec_encode_blocks(s).len() == 1,
        s.len() > 0 ==> spec_encode_blocks(s).len() <= s.len() + 1 + (s.len() - 1) / 254,
    decreases s.len(),
{
    lemma_zero_free_prefix(s);
    let k = head_len(s) as int;
    let n = s.len() as int;
    if k < n && k < 254 {
        lemma_encode_blocks_len_upper(s.skip(k + 1));
        let m = n - k - 1;
        if m == 0 {
            lemma_div_pos_is_pos(n - 1, 254);
        } else {
            lemma_div_is_ordered(m - 1, n - 1, 254);
        }
    } else if k < n {
        lemma_encode_blocks_len_upper(s.skip(254));
        assert((n - 255) / 254 + 1 == (n - 1) / 254) by {
            lemma_hoist_over_denominator(n - 255, 1, 254nat);
        }
    } else {
        if n > 0 {
            lemma_div_pos_is_pos(n - 1, 254);
        }
    }
}

/// One step of decoding: a well-formed block followed by an arbitrary
/// remainder decodes to its payload, a separating zero where one is due, and
/// the decoding of the remainder.
proof fn lemma_decode_step(k: int, p: Seq<u8>, r: Seq<u8>)
    requires
        0 <= k <= 254,
        p.len() == k,
    ensures
        spec_decode(seq![(k + 1) as u8] + p + r) == match spec_decode(r) {
            Option::None => Option::<Seq<u8>>::None,
            Option::Some(tail) => Option::Some(
                p + (if k != 254 && r.len() > 0 {
                    seq![0u8]
                } else {
                    Seq::<u8>::empty()
                }) + tail,
            ),
        },
{
    let t = seq![(k + 1) as u8] + p + r;
    assert(t.len() == 1 + k + r.len());
    assert(t[0] == (k + 1) as u8);
    assert((k + 1) as u8 == k + 1);
    let copy = if t[0] <= 1 { 0int } else { t[0] - 1 };
    assert(copy == k);
    assert(t.skip(1 + copy) =~= r);
    assert(t.subrange(1, 1 + copy) =~= p);
}

proof fn lemma_decode_encode_blocks(s: Seq<u8>)
    ensures
        spec_decode(spec_encode_blocks(s)) == Option::Some(s),
    decreases s.len(),
{
    lemma_zero_free_prefix(s);
    let k = head_len(s) as int;
    if k < s.len() && k < 254 {
        let rest = spec_encode_blocks(s.skip(k + 1));
        lemma_decode_encode_blocks(s.skip(k + 1));
        lemma_encode_blocks_len_lower(s.skip(k + 1));
        lemma_decode_step(k, s.take(k), rest);
        assert(s[k] == 0);
        assert(s.take(k) + seq![0u8] + s.skip(k + 1) =~= s);
    } else if k < s.len() {
        let rest = spec_encode_blocks(s.skip(254));
        lemma_decode_encode_blocks(s.skip(254));
        lemma_encode_blocks_len_lower(s.skip(254));
        lemma_decode_step(254, s.take(254), rest);
        assert(s.take(254) + Seq::<u8>::empty() + s.skip(254) =~= s);
    } else {
        lemma_decode_step(k, s.take(k), Seq::<u8>::empty());
        assert(seq![(k + 1) as u8] + s.take(k) + Seq::<u8>::empty() =~= seq![(k + 1) as u8]
            + s.take(k));
        assert(s.take(k) + Seq::<u8>::empty() + Seq::<u8>::empty() =~= s);
    }
}

/// The worst-case encoded length for a raw length `n`: one prefix byte per
/// started run of up to 254 payload bytes.
pub open spec fn spec_max_encoded_len(n: nat) -> nat {
    if n == 0 {
        0
    } else {
        (n + 1 + (n - 1) / 254) as nat
    }
}

/// Smallest destination size guaranteed to hold the encoding of any
/// `raw_len`-byte input.
pub fn max_encoded_len(raw_len: usize) -> (r: usize)
    requires
        spec_max_encoded_len(raw_len as nat) <= usize::MAX,
    ensures
        r == spec_max_encoded_len(raw_len as nat),
{
    if raw_len == 0 {
        0
    } else {
        raw_len + 1 + (raw_len - 1) / 254
    }
}

/// Encodes `src` into the prefix of `dst`, returning the number of bytes
/// written.
///
/// Succeeds exactly when `dst` can hold the whole encoding; on success the
/// bytes of `dst` past the returned length are untouched. On failure `dst`
/// keeps its length but its contents are unspecified.
pub fn encode(src: &[u8], dst: &mut [u8]) -> (r: Result<usize, ()>)
    ensures
        final(dst)@.len() == old(dst)@.len(),
        r matches Ok(n) ==> {
            &&& n == spec_encode(src@).len()
            &&& n <= final(dst)@.len()
            &&& final(dst)@.take(n as int) == spec_encode(src@)
            &&& forall|i: int| n <= i < final(dst)@.len() ==> final(dst)@[i] == old(dst)@[i]
        },
        r is Err <==> old(dst)@.len() < spec_encode(src@).len(),
        old(dst)@.len() >= spec_max_encoded_len(src@.len()) ==> r is Ok,
{
    let src_len: usize = src.len();
    if src_len == 0 {
        return Ok(0);
    }
    let mut pos: usize = 0;
    let mut out: usize = 0;
    proof {
        assert(src@.skip(0) =~= src@);
        assert(dst@.take(0) + spec_encode_blocks(src@.skip(0)) =~= spec_encode_blocks(src@));
    }
    loop
        invariant
            src_len == src@.len(),
            src@.len() > 0,
            pos <= src@.len(),
            out <= dst@.len(),
            dst@.len() == old(dst)@.len(),
            spec_encode(src@) == dst@.take(out as int) + spec_encode_blocks(src@.skip(pos as int)),
            forall|i: int| out <= i < dst@.len() ==> dst@[i] == old(dst)@[i],
        decreases src@.len() - pos,
    {
        let ghost t = src@.skip(pos as int);

        // measure the payload of the next block: the run of non-zero bytes
        // from `pos`, cut at the next zero, at 254 bytes, or at the end
        let mut k: usize = 0;
        while pos + k < src_len && k < 254 && src[pos + k] != 0
            invariant
                src_len == src@.len(),
                pos <= src@.len(),
                k <= 254,
                pos + k <= src@.len(),
                forall|i: int| pos <= i < pos + k ==> src@[i] != 0,
            decreases src@.len() - pos - k,
        {
            k = k + 1;
        }
        proof {
            assert forall|i: int| 0 <= i < k implies t[i] != 0 by {
                assert(t[i] == src@[pos + i]);
            }
            if pos + k == src@.len() {
                lemma_zero_free_prefix_is(t, k as int);
            } else if k < 254 {
                assert(t[k as int] == src@[pos + k]);
                lemma_zero_free_prefix_is(t, k as int);
            } else {
                lemma_zero_free_prefix_at_least(t, 254);
            }
            assert(head_len(t) == k);
        }
        let ghost block = seq![(k + 1) as u8] + t.take(k as int);

        // write the length prefix
        if out >= dst.len() {
            proof {
                lemma_encode_blocks_len_lower(t);
                assert(spec_encode(src@).len() >= out + 1);
                lemma_encode_len_fits(src@);
            }
            return Err(());
        }
        dst[out] = (k + 1) as u8;

        // copy the payload
        let mut w: usize = out + 1;
        let mut j: usize = 0;
        while j < k
            invariant
                src_len == src@.len(),
                j <= k,
                k <= 254,
                head_len(t) == k,
                pos + k <= src@.len(),
                w == out + 1 + j,
                out < dst@.len(),
                w <= dst@.len(),
                dst@.len() == old(dst)@.len(),
                dst@[out as int] == (k + 1) as u8,
                spec_encode(src@) == dst@.take(out as int) + spec_encode_blocks(t),
                t == src@.skip(pos as int),
                dst@.subrange(out + 1, w as int) == src@.subrange(pos as int, pos + j),
                forall|i: int| w <= i < dst@.len() ==> dst@[i] == old(dst)@[i],
            decreases k - j,
        {
            if w >= dst.len() {
                proof {
                    lemma_zero_free_prefix(t);
                    assert(spec_encode_blocks(t).len() >= k + 1);
                    assert(spec_encode(src@).len() >= out + k + 1);
                    lemma_encode_len_fits(src@);
                }
                return Err(());
            }
            dst[w] = src[pos + j];
            w = w + 1;
            j = j + 1;
            proof {
                assert(dst@.subrange(out + 1, w as int) =~= src@.subrange(pos as int, pos + j));
            }
        }
        proof {
            assert(dst@.take(out + 1 + k) =~= dst@.take(out as int) + block) by {
                assert forall|i: int| 0 <= i < k implies t.take(k as int)[i] == dst@[out + 1 + i] by {
                    assert(t.take(k as int)[i] == src@[pos + i]);
                    assert(dst@.subrange(out + 1, out + 1 + k)[i] == dst@[out + 1 + i]);
                }
            }
        }

        if pos + k == src.len() {
            // the input ends exactly at this block boundary
            proof {
                assert(spec_encode_blocks(t) == block);
                assert(spec_encode(src@) =~= dst@.take(out + 1 + k));
            }
            return Ok(out + 1 + k);
        } else if k < 254 {
            // the run ended on a real zero: consume it
            proof {
                assert(spec_encode_blocks(t) == block + spec_encode_blocks(t.skip(k + 1)));
                assert(t.skip(k + 1) =~= src@.skip(pos + k + 1));
                assert(dst@.take(out + 1 + k) + spec_encode_blocks(src@.skip(pos + k + 1))
                    =~= spec_encode(src@));
            }
            pos = pos + k + 1;
            out = w;
        } else {
            // the run was cut by the 254-byte cap: no zero to consume
            proof {
                assert(spec_encode_blocks(t) == block + spec_encode_blocks(t.skip(254)));
                assert(t.skip(254) =~= src@.skip(pos + 254));
                assert(dst@.take(out + 1 + k) + spec_encode_blocks(src@.skip(pos + 254))
                    =~= spec_encode(src@));
            }
            pos = pos + 254;
            out = w;
        }
    }
}

/// Decodes a COBS-encoded buffer in place, returning the length of the
/// decoded prefix of `buffer`.
///
/// The decoded bytes are `buffer[..n]`; the rest of the buffer is left in an
/// unspecified state. Fails with `Err(())` exactly when a block's declared
/// payload length reaches past the end of the buffer, in which case the
/// buffer's contents are unspecified.
pub fn decode(buffer: &mut [u8]) -> (r: Result<usize, ()>)
    ensures
        final(buffer)@.len() == old(buffer)@.len(),
        r matches Ok(n) ==> {
            &&& n <= final(buffer)@.len()
            &&& n == spec_decode(old(buffer)@).unwrap().len()
            &&& spec_decode(old(buffer)@) == Option::Some(final(buffer)@.take(n as int))
        },
        r is Err <==> spec_decode(old(buffer)@) is None,
{
    let input_len: usize = buffer.len();
    let mut read_idx: usize = 0;
    let mut write_idx: usize = 0;
    proof {
        assert(old(buffer)@.skip(0) =~= old(buffer)@);
    }
    while read_idx < input_len
        invariant
            input_len == buffer@.len(),
            buffer@.len() == old(buffer)@.len(),
            write_idx <= read_idx <= input_len,
            forall|i: int| read_idx <= i < buffer@.len() ==> buffer@[i] == old(buffer)@[i],
            spec_decode(old(buffer)@) is Some <==> spec_decode(
                old(buffer)@.skip(read_idx as int),
            ) is Some,
            spec_decode(old(buffer)@) is Some ==> spec_decode(old(buffer)@) == Option::Some(
                buffer@.take(write_idx as int) + spec_decode(
                    old(buffer)@.skip(read_idx as int),
                ).unwrap(),
            ),
        decreases input_len - read_idx,
    {
        let ghost r0 = read_idx as int;
        let ghost w0 = write_idx as int;
        let ghost rem = old(buffer)@.skip(r0);
        let block_len: u8 = buffer[read_idx];
        proof {
            assert(rem[0] == old(buffer)@[r0]);
        }
        read_idx = read_idx + 1;
        let copy_len: usize = if block_len <= 1 {
            0
        } else {
            (block_len - 1) as usize
        };
        if copy_len > input_len - read_idx {
            proof {
                assert(1 + copy_len > rem.len());
            }
            return Err(());
        }

        // compact the payload towards the front; the write cursor never
        // passes the read cursor, so a forward copy is safe in place
        let mut j: usize = 0;
        while j < copy_len
            invariant
                input_len == buffer@.len(),
                buffer@.len() == old(buffer)@.len(),
                j <= copy_len,
                write_idx < read_idx,
                read_idx + copy_len <= input_len,
                rem == old(buffer)@.skip(read_idx - 1),
                rem[0] == block_len,
                copy_len == (if rem[0] <= 1 {
                    0int
                } else {
                    rem[0] - 1
                }),
                forall|i: int|
                    read_idx + j <= i < buffer@.len() ==> buffer@[i] == old(buffer)@[i],
                buffer@.subrange(write_idx as int, write_idx + j) == old(buffer)@.subrange(
                    read_idx as int,
                    read_idx + j,
                ),
                spec_decode(old(buffer)@) is Some <==> spec_decode(rem) is Some,
                spec_decode(old(buffer)@) is Some ==> spec_decode(old(buffer)@) == Option::Some(
                    buffer@.take(write_idx as int) + spec_decode(rem).unwrap(),
                ),
            decreases copy_len - j,
        {
            buffer[write_idx + j] = buffer[read_idx + j];
            j = j + 1;
            proof {
                assert(buffer@.subrange(write_idx as int, write_idx + j) =~= old(
                    buffer,
                )@.subrange(read_idx as int, read_idx + j));
            }
        }

        let ghost rest = rem.skip(1 + copy_len as int);
        let ghost payload = rem.subrange(1, 1 + copy_len as int);
        proof {
            assert(rest =~= old(buffer)@.skip(r0 + 1 + copy_len as int));
            assert(payload =~= old(buffer)@.subrange(r0 + 1, r0 + 1 + copy_len as int));
            assert(buffer@.take(w0 + copy_len as int) =~= buffer@.take(w0) + payload);
        }
        read_idx = read_idx + copy_len;
        write_idx = write_idx + copy_len;

        if block_len != 255 && read_idx < input_len {
            // this block's boundary came from a real zero: re-insert it
            buffer[write_idx] = 0;
            write_idx = write_idx + 1;
            proof {
                assert(buffer@.take(write_idx as int) =~= buffer@.take(w0) + payload
                    + seq![0u8]);
                assert(spec_decode(rem) matches Option::Some(d) ==> d == payload + seq![0u8]
                    + spec_decode(rest).unwrap());
                assert(buffer@.take(write_idx as int) + (spec_decode(rest).unwrap_or(
                    Seq::empty(),
                )) =~= buffer@.take(w0) + (payload + seq![0u8] + spec_decode(rest).unwrap_or(
                    Seq::empty(),
                )));
            }
        } else {
            proof {
                assert(spec_decode(rem) matches Option::Some(d) ==> d == payload + Seq::<
                    u8,
                >::empty() + spec_decode(rest).unwrap());
                assert(buffer@.take(write_idx as int) + (spec_decode(rest).unwrap_or(
                    Seq::empty(),
                )) =~= buffer@.take(w0) + (payload + Seq::<u8>::empty() + spec_decode(
                    rest,
                ).unwrap_or(Seq::empty())));
            }
        }
    }
    proof {
        assert(old(buffer)@.skip(input_len as int) =~= Seq::<u8>::empty());
        assert(buffer@.take(write_idx as int) + Seq::<u8>::empty() =~= buffer@.take(
            write_idx as int,
        ));
    }
    Ok(write_idx)
}

/// Round trip: decoding the encoding of any byte sequence yields that
/// sequence back.
pub proof fn lemma_round_trip(d: Seq<u8>)
    ensures
        spec_decode(spec_encode(d)) == Option::Some(d),
{
    if d.len() == 0 {
        assert(d =~= Seq::<u8>::empty());
    } else {
        lemma_decode_encode_blocks(d);
    }
}

/// The encoding of any byte sequence contains no zero byte.
pub proof fn lemma_encode_zero_free(d: Seq<u8>)
    ensures
        forall|i: int| 0 <= i < spec_encode(d).len() ==> spec_encode(d)[i] != 0,
{
    if d.len() > 0 {
        lemma_encode_blocks_no_zero(d);
    }
}

/// The encoding of any non-empty byte sequence is strictly longer than the
/// sequence itself.
pub proof fn lemma_encode_expands(d: Seq<u8>)
    requires
        d.len() > 0,
    ensures
        spec_encode(d).len() > d.len(),
{
    lemma_encode_blocks_len_lower(d);
}

/// The encoding of any byte sequence fits in `max_encoded_len` of its length,
/// so a destination of that size always suffices.
pub proof fn lemma_encode_len_fits(d: Seq<u8>)
    ensures
        spec_encode(d).len() <= spec_max_encoded_len(d.len()),
{
    if d.len() > 0 {
        lemma_encode_blocks_len_upper(d);
    }
}

} // verus!

