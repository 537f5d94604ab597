//! The LZSS ring buffer: construction, reads, match checks and replay steps.
use vstd::prelude::*;

use crate::model::{
    copy_from, expected_byte, lemma_run_from, match_cap, match_len_at, run_from, initial_ring, lemma_copy_len, lemma_mod_add, lemma_mod_by, lemma_ring_after_len,
    match_holds, ring_after, ring_dist,
};

verus! {

/// Number of slots in the ring buffer.
pub const RING_SIZE: usize = 0x1000;

/// Write head before the first byte is emitted.
pub const INITIAL_RING_POS: usize = 0x0fee;

/// Shortest match the format stores.
pub const MIN_MATCH_LEN: usize = 3;

/// Longest match the format stores.
pub const MAX_MATCH_LEN: usize = 18;

/// Masking with 0xfff is reduction modulo 4096.
pub proof fn lemma_mask(x: usize)
    ensures
        x & 0xfff == x % 4096,
        x & 0xfff < 4096,
{
    assert(x & 0xfff == x % 4096) by (bit_vector);
    assert(x & 0xfff < 4096) by (bit_vector);
}

/// A fresh ring: 4096 spaces.
pub fn new_ring() -> (ring: Vec<u8>)
    ensures
        ring@ == initial_ring(),
{
    let mut ring: Vec<u8> = Vec::with_capacity(RING_SIZE);
    let mut i: usize = 0;
    while i < RING_SIZE
        invariant
            i <= RING_SIZE,
            ring@.len() == i,
            forall|j: int| 0 <= j < i ==> ring@[j] == 0x20u8,
        decreases RING_SIZE - i,
    {
        ring.push(0x20u8);
        i += 1;
    }
    assert(ring@ =~= initial_ring());
    ring
}

/// Distance from the write head `r` back to ring position `pos`, modulo 4096.
pub fn dist_back(r: usize, pos: u16) -> (d: u16)
    requires
        pos as int <= r + 0x1000 <= usize::MAX,
    ensures
        d as int == ring_dist(r as int, pos as int),
{
    let x = r + 0x1000 - pos as usize;
    proof {
        lemma_mask(x);
        lemma_mod_add(4096, r - pos);
        lemma_mod_by(4096, 1, 0);
    }
    (x & 0x0fff) as u16
}

/// The byte in slot `pos` taken modulo 4096.
pub fn ring_at(ring: &[u8], pos: usize) -> (b: u8)
    requires
        ring@.len() == 4096,
    ensures
        b == ring@[pos as int % 4096],
{
    proof {
        lemma_mask(pos);
    }
    ring[pos & 0x0fff]
}

/// Writes one byte at the head and advances the head.
pub fn push_byte(ring: &mut Vec<u8>, r: &mut usize, b: u8)
    requires
        old(ring)@.len() == 4096,
        *old(r) < 4096,
    ensures
        final(ring)@ == ring_after(old(ring)@, *old(r) as int, seq![b]),
        final(ring)@.len() == 4096,
        *final(r) as int == (*old(r) + 1) % 4096,
{
    let ghost ring0 = ring@;
    let ghost r0 = *r as int;
    proof {
        assert(seq![b].drop_last() =~= Seq::<u8>::empty());
        lemma_mod_by(r0, 0, r0);
        lemma_mask((r0 + 1) as usize);
        reveal_with_fuel(ring_after, 2);
        assert(ring_after(ring0, r0, seq![b]) == ring0.update(r0, b));
    }
    ring.set(*r, b);
    *r = (*r + 1) & 0x0fff;
}

/// Replays a match: copies `len` bytes from slot `pos` onwards to the head,
/// one at a time, exactly as a decoder does.
pub fn copy_match(ring: &mut Vec<u8>, r: &mut usize, pos: usize, len: usize)
    requires
        old(ring)@.len() == 4096,
        *old(r) < 4096,
        pos < 4096,
    ensures
        final(ring)@ == ring_after(
            old(ring)@,
            *old(r) as int,
            copy_from(old(ring)@, *old(r) as int, pos as int, len as nat),
        ),
        final(ring)@.len() == 4096,
        *final(r) as int == (*old(r) + len) % 4096,
{
    let ghost ring0 = ring@;
    let ghost r0 = *r as int;
    let mut copy_pos = pos;
    let mut j: usize = 0;
    proof {
        lemma_mod_by(r0, 0, r0);
        lemma_mod_by(pos as int, 0, pos as int);
    }
    while j < len
        invariant
            ring0.len() == 4096,
            0 <= r0 < 4096,
            pos < 4096,
            j <= len,
            ring@ == ring_after(ring0, r0, copy_from(ring0, r0, pos as int, j as nat)),
            ring@.len() == 4096,
            *r < 4096,
            *r as int == (r0 + j) % 4096,
            copy_pos < 4096,
            copy_pos as int == (pos + j) % 4096,
        decreases len - j,
    {
        let ghost c = copy_from(ring0, r0, pos as int, j as nat);
        let pixel = ring[copy_pos];
        proof {
            lemma_copy_len(ring0, r0, pos as int, j as nat);
            let c1 = copy_from(ring0, r0, pos as int, (j + 1) as nat);
            assert(c1 == c.push(pixel));
            assert(c1.drop_last() =~= c);
            lemma_mod_add(r0 + j, 1);
            lemma_mod_add(pos + j, 1);
            lemma_mask((copy_pos + 1) as usize);
            lemma_mask((*r + 1) as usize);
        }
        ring.set(*r, pixel);
        *r = (*r + 1) & 0x0fff;
        copy_pos = (copy_pos + 1) & 0x0fff;
        j += 1;
    }
    proof {
        lemma_ring_after_len(ring0, r0, copy_from(ring0, r0, pos as int, len as nat));
    }
}

/// Whether a match from `pos` of length `len` reproduces `input[s..s + len]`
/// on the ring `ring` with head `r`.  Bytes the match itself writes before
/// reading them (distance below `len`) are taken from the input.
pub fn check_match(ring: &[u8], r: usize, pos: usize, input: &[u8], s: usize, len: usize) -> (ok:
    bool)
    requires
        ring@.len() == 4096,
        pos < 4096,
        r + 0x1000 <= usize::MAX,
        s + len <= usize::MAX,
    ensures
        ok == (s + len <= input@.len() && match_holds(
            ring@,
            r as int,
            pos as int,
            input@.skip(s as int),
            len as int,
        )),
{
    if s + len > input.len() {
        return false;
    }
    check_match_with_writeback(ring, r, pos, input, s, len)
}

/// Like `check_match`, for a match that fits in the input.
pub fn check_match_with_writeback(
    ring: &[u8],
    r: usize,
    pos: usize,
    input: &[u8],
    s: usize,
    len: usize,
) -> (ok: bool)
    requires
        ring@.len() == 4096,
        pos < 4096,
        r + 0x1000 <= usize::MAX,
        s + len <= input@.len(),
    ensures
        ok == match_holds(ring@, r as int, pos as int, input@.skip(s as int), len as int),
{
    let ghost target = input@.skip(s as int);
    let n = input.len();
    let dist = (r + 0x1000 - pos) & 0x0fff;
    proof {
        lemma_mask((r + 0x1000 - pos) as usize);
        lemma_mod_add(4096, r - pos);
        lemma_mod_by(4096, 1, 0);
        assert(dist as int == ring_dist(r as int, pos as int));
        lemma_mod_by(pos as int, 0, pos as int);
    }
    let mut p = pos;
    let mut k: usize = 0;
    if dist == 0 || dist >= len {
        while k < len
            invariant
                ring@.len() == 4096,
                pos < 4096,
                s + len <= input@.len(),
                n == input@.len(),
                target == input@.skip(s as int),
                dist as int == ring_dist(r as int, pos as int),
                dist == 0 || dist >= len,
                k <= len,
                p < 4096,
                p as int == (pos + k) % 4096,
                forall|j: int|
                    0 <= j < k ==> target[j] == #[trigger] expected_byte(
                        ring@,
                        r as int,
                        pos as int,
                        target,
                        j,
                    ),
            decreases len - k,
        {
            if ring[p] != input[s + k] {
                assert(target[k as int] != expected_byte(ring@, r as int, pos as int, target, k as int));
                return false;
            }
            proof {
                lemma_mask((p + 1) as usize);
                lemma_mod_add(pos + k, 1);
            }
            p = (p + 1) & 0x0fff;
            k += 1;
        }
        true
    } else {
        while k < dist
            invariant
                ring@.len() == 4096,
                pos < 4096,
                s + len <= input@.len(),
                n == input@.len(),
                target == input@.skip(s as int),
                dist as int == ring_dist(r as int, pos as int),
                0 < dist < len,
                k <= dist,
                p < 4096,
                p as int == (pos + k) % 4096,
                forall|j: int|
                    0 <= j < k ==> target[j] == #[trigger] expected_byte(
                        ring@,
                        r as int,
                        pos as int,
                        target,
                        j,
                    ),
            decreases dist - k,
        {
            if ring[p] != input[s + k] {
                assert(target[k as int] != expected_byte(ring@, r as int, pos as int, target, k as int));
                return false;
            }
            proof {
                lemma_mask((p + 1) as usize);
                lemma_mod_add(pos + k, 1);
            }
            p = (p + 1) & 0x0fff;
            k += 1;
        }
        while k < len
            invariant
                ring@.len() == 4096,
                s + len <= input@.len(),
                n == input@.len(),
                target == input@.skip(s as int),
                dist as int == ring_dist(r as int, pos as int),
                0 < dist < len,
                dist <= k <= len,
                forall|j: int|
                    0 <= j < k ==> target[j] == #[trigger] expected_byte(
                        ring@,
                        r as int,
                        pos as int,
                        target,
                        j,
                    ),
            decreases len - k,
        {
            let a = input[s + k];
            let b = input[s + k - dist];
            proof {
                assert(target[k as int] == a);
                assert(target[k - dist] == b);
                assert(expected_byte(ring@, r as int, pos as int, target, k as int) == target[k
                    - dist]);
            }
            if a != b {
                return false;
            }
            k += 1;
        }
        true
    }
}

/// Length of the longest match from `pos` for `input[s..]`, capped at 18;
/// 0 when that is shorter than 3 bytes.
pub fn max_match_at_pos(ring: &[u8], r: usize, pos: usize, input: &[u8], s: usize) -> (l: usize)
    requires
        ring@.len() == 4096,
        pos < 4096,
        r + 0x1000 <= usize::MAX,
        s <= input@.len(),
    ensures
        l as int == match_len_at(ring@, r as int, pos as int, input@.skip(s as int)),
{
    let ghost target = input@.skip(s as int);
    let n = input.len();
    let dist = (r + 0x1000 - pos) & 0x0fff;
    proof {
        lemma_mask((r + 0x1000 - pos) as usize);
        lemma_mod_add(4096, r - pos);
        lemma_mod_by(4096, 1, 0);
        assert(dist as int == ring_dist(r as int, pos as int));
        lemma_mod_by(pos as int, 0, pos as int);
    }
    let rest = n - s;
    let cap = if rest < MAX_MATCH_LEN { rest } else { MAX_MATCH_LEN };
    assert(cap as int == match_cap(target));
    if cap < MIN_MATCH_LEN {
        return 0;
    }
    proof {
        lemma_run_from(ring@, r as int, pos as int, target, 0, cap as int);
    }
    let mut p = pos;
    let mut l: usize = 0;
    if dist == 0 || dist >= cap {
        while l < cap && ring[p] == input[s + l]
            invariant
                ring@.len() == 4096,
                n == input@.len(),
                s + cap <= n,
                cap <= 18,
                target == input@.skip(s as int),
                dist as int == ring_dist(r as int, pos as int),
                dist == 0 || dist >= cap,
                l <= cap,
                p < 4096,
                p as int == (pos + l) % 4096,
                run_from(ring@, r as int, pos as int, target, 0, cap as int) == run_from(
                    ring@,
                    r as int,
                    pos as int,
                    target,
                    l as int,
                    cap as int,
                ),
            decreases cap - l,
        {
            proof {
                lemma_mask((p + 1) as usize);
                lemma_mod_add(pos + l, 1);
                assert(target[l as int] == expected_byte(ring@, r as int, pos as int, target, l as int));
            }
            p = (p + 1) & 0x0fff;
            l += 1;
        }
        if l >= MIN_MATCH_LEN {
            l
        } else {
            0
        }
    } else {
        while l < dist
            invariant
                ring@.len() == 4096,
                n == input@.len(),
                s + cap <= n,
                cap <= 18,
                target == input@.skip(s as int),
                dist as int == ring_dist(r as int, pos as int),
                0 < dist < cap,
                l <= dist,
                p < 4096,
                p as int == (pos + l) % 4096,
                run_from(ring@, r as int, pos as int, target, 0, cap as int) == run_from(
                    ring@,
                    r as int,
                    pos as int,
                    target,
                    l as int,
                    cap as int,
                ),
            ensures
                l <= dist,
                p as int == (pos + l) % 4096,
                l < dist ==> target[l as int] != expected_byte(
                    ring@,
                    r as int,
                    pos as int,
                    target,
                    l as int,
                ),
                run_from(ring@, r as int, pos as int, target, 0, cap as int) == run_from(
                    ring@,
                    r as int,
                    pos as int,
                    target,
                    l as int,
                    cap as int,
                ),
            decreases dist - l,
        {
            if ring[p] != input[s + l] {
                assert(target[l as int] != expected_byte(ring@, r as int, pos as int, target, l as int));
                break;
            }
            proof {
                lemma_mask((p + 1) as usize);
                lemma_mod_add(pos + l, 1);
                assert(target[l as int] == expected_byte(ring@, r as int, pos as int, target, l as int));
            }
            p = (p + 1) & 0x0fff;
            l += 1;
        }
        if l < dist {
            return if l >= MIN_MATCH_LEN {
                l
            } else {
                0
            };
        }
        while l < cap && input[s + l] == input[s + l - dist]
            invariant
                ring@.len() == 4096,
                n == input@.len(),
                s + cap <= n,
                cap <= 18,
                target == input@.skip(s as int),
                dist as int == ring_dist(r as int, pos as int),
                0 < dist < cap,
                dist <= l <= cap,
                run_from(ring@, r as int, pos as int, target, 0, cap as int) == run_from(
                    ring@,
                    r as int,
                    pos as int,
                    target,
                    l as int,
                    cap as int,
                ),
            decreases cap - l,
        {
            assert(target[l as int] == expected_byte(ring@, r as int, pos as int, target, l as int));
            l += 1;
        }
        if l >= MIN_MATCH_LEN {
            l
        } else {
            0
        }
    }
}

} // verus!
