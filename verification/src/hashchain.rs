//! Hash chains over three-byte prefixes: the three hash functions studied,
//! the rank of a position in its chain, and the exact occurrences of a
//! string among the slots actually written.
use vstd::prelude::*;

use crate::greedy::token_size_exec;
use crate::model::{
    head_of, initial_ring, lemma_mod_add, lemma_mod_basics, lemma_mod_by, lemma_ring_of_concat, lemma_ring_of_len,
    ring_of, Token,
};
use crate::ring::{lemma_mask, new_ring, push_byte};
use crate::token::total_size;

verus! {

/// The three-byte hash functions studied.
#[derive(Clone, Copy, Debug, PartialEq, Eq, Structural)]
pub enum HashFn {
    /// `(b0 << 4) ^ (b1 << 2) ^ b2`
    H1,
    /// `(((b0 << 5) ^ b1) << 5) ^ b2`, a rolling hash as in deflate
    H2,
    /// `((b0 << 8) | b1) ^ (b2 << 4)`
    H3,
}

/// The unmasked hash of three bytes.
pub open spec fn hash_raw(hf: HashFn, b0: u32, b1: u32, b2: u32) -> u32 {
    match hf {
        HashFn::H1 => (b0 << 4u32) ^ (b1 << 2u32) ^ b2,
        HashFn::H2 => (((b0 << 5u32) ^ b1) << 5u32) ^ b2,
        HashFn::H3 => ((b0 << 8u32) | b1) ^ (b2 << 4u32),
    }
}

/// The three hashes, written out: H1 is `(b0 << 4) ^ (b1 << 2) ^ b2`, H2
/// is `(((b0 << 5) ^ b1) << 5) ^ b2`, H3 is `((b0 << 8) | b1) ^ (b2 << 4)`,
/// all on 32 bits.
pub proof fn lemma_hash_formulas(b0: u32, b1: u32, b2: u32)
    ensures
        hash_raw(HashFn::H1, b0, b1, b2) == (b0 << 4u32) ^ (b1 << 2u32) ^ b2,
        hash_raw(HashFn::H2, b0, b1, b2) == (((b0 << 5u32) ^ b1) << 5u32) ^ b2,
        hash_raw(HashFn::H3, b0, b1, b2) == ((b0 << 8u32) | b1) ^ (b2 << 4u32),
{
}

/// H1 and H2 are linear over exclusive or: hashing the bytewise xor of two
/// triples gives the xor of their hashes, so bits that two inputs share
/// cancel.  For byte inputs H3 is linear too, its `|` joining disjoint bits.
pub proof fn lemma_hash_xor_linear(a0: u32, a1: u32, a2: u32, b0: u32, b1: u32, b2: u32)
    ensures
        hash_raw(HashFn::H1, a0 ^ b0, a1 ^ b1, a2 ^ b2) == hash_raw(HashFn::H1, a0, a1, a2) ^ hash_raw(
            HashFn::H1,
            b0,
            b1,
            b2,
        ),
        hash_raw(HashFn::H2, a0 ^ b0, a1 ^ b1, a2 ^ b2) == hash_raw(HashFn::H2, a0, a1, a2) ^ hash_raw(
            HashFn::H2,
            b0,
            b1,
            b2,
        ),
        a1 < 256 && b1 < 256 ==> hash_raw(HashFn::H3, a0 ^ b0, a1 ^ b1, a2 ^ b2) == hash_raw(
            HashFn::H3,
            a0,
            a1,
            a2,
        ) ^ hash_raw(HashFn::H3, b0, b1, b2),
{
    lemma_hash_formulas(a0 ^ b0, a1 ^ b1, a2 ^ b2);
    lemma_hash_formulas(a0, a1, a2);
    lemma_hash_formulas(b0, b1, b2);
    assert(((a0 ^ b0) << 4u32) ^ ((a1 ^ b1) << 2u32) ^ (a2 ^ b2) == ((a0 << 4u32) ^ (a1 << 2u32) ^ a2)
        ^ ((b0 << 4u32) ^ (b1 << 2u32) ^ b2)) by (bit_vector);
    assert((((((a0 ^ b0) << 5u32) ^ (a1 ^ b1)) << 5u32) ^ (a2 ^ b2)) == ((((a0 << 5u32) ^ a1) << 5u32)
        ^ a2) ^ ((((b0 << 5u32) ^ b1) << 5u32) ^ b2)) by (bit_vector);
    assert(a1 < 256 && b1 < 256 ==> ((((a0 ^ b0) << 8u32) | (a1 ^ b1)) ^ ((a2 ^ b2) << 4u32)) == ((((
        a0 << 8u32) | a1) ^ (a2 << 4u32)) ^ (((b0 << 8u32) | b1) ^ (b2 << 4u32)))) by (bit_vector);
}

/// Flipping some of the two low bits of the third byte flips exactly those
/// bits of H1.
pub proof fn lemma_h1_low_bits(b0: u32, b1: u32, b2: u32, x: u32)
    requires
        x < 4,
    ensures
        hash_raw(HashFn::H1, b0, b1, b2 ^ x) == hash_raw(HashFn::H1, b0, b1, b2) ^ x,
{
    lemma_hash_xor_linear(b0, b1, b2, 0, 0, x);
    lemma_hash_formulas(0, 0, x);
    assert((0u32 << 4u32) ^ (0u32 << 2u32) ^ x == x) by (bit_vector);
    assert(b0 ^ 0 == b0 && b1 ^ 0 == b1) by (bit_vector);
}

impl HashFn {
    /// The name the hash-chain report prints.
    pub fn name(&self) -> (s: &'static str)
        ensures
            s@ == (match *self {
                HashFn::H1 => "h1_shift4_2_0"@,
                HashFn::H2 => "h2_deflate_roll"@,
                HashFn::H3 => "h3_b0b1_xor_b2"@,
            }),
    {
        match self {
            HashFn::H1 => "h1_shift4_2_0",
            HashFn::H2 => "h2_deflate_roll",
            HashFn::H3 => "h3_b0b1_xor_b2",
        }
    }

    /// The short name the tie-break report prints.
    pub fn short_name(&self) -> (s: &'static str)
        ensures
            s@ == (match *self {
                HashFn::H1 => "h1"@,
                HashFn::H2 => "h2"@,
                HashFn::H3 => "h3"@,
            }),
    {
        match self {
            HashFn::H1 => "h1",
            HashFn::H2 => "h2",
            HashFn::H3 => "h3",
        }
    }

    /// The unmasked hash of three bytes (shifts drop the bits above 32).
    pub fn raw(&self, b0: u32, b1: u32, b2: u32) -> (h: u32)
        ensures
            h == hash_raw(*self, b0, b1, b2),
            *self == HashFn::H1 ==> h == (b0 << 4u32) ^ (b1 << 2u32) ^ b2,
            *self == HashFn::H2 ==> h == (((b0 << 5u32) ^ b1) << 5u32) ^ b2,
            *self == HashFn::H3 ==> h == ((b0 << 8u32) | b1) ^ (b2 << 4u32),
    {
        match self {
            HashFn::H1 => (b0 << 4u32) ^ (b1 << 2u32) ^ b2,
            HashFn::H2 => (((b0 << 5u32) ^ b1) << 5u32) ^ b2,
            HashFn::H3 => ((b0 << 8u32) | b1) ^ (b2 << 4u32),
        }
    }
}

/// The three hash functions, in order.
pub fn all_hashes() -> (v: Vec<HashFn>)
    ensures
        v@ == seq![HashFn::H1, HashFn::H2, HashFn::H3],
{
    let mut v = Vec::new();
    v.push(HashFn::H1);
    v.push(HashFn::H2);
    v.push(HashFn::H3);
    v
}

/// The three masks studied, in order.
pub fn hash_masks() -> (v: Vec<u32>)
    ensures
        v@ == seq![0xfffu32, 0x7ffu32, 0x3ffu32],
{
    let mut v = Vec::new();
    v.push(0xfffu32);
    v.push(0x7ffu32);
    v.push(0x3ffu32);
    v
}

/// A slot never written carries the tick `u32::MAX`.
pub open spec fn unwritten(tick: u32) -> bool {
    tick == u32::MAX
}

/// The masked hash of the three bytes from slot `p` (taken modulo 4096).
pub open spec fn hash_at(ring: Seq<u8>, p: int, hf: HashFn, mask: u32) -> u32 {
    hash_raw(
        hf,
        ring[p % 4096] as u32,
        ring[(p + 1) % 4096] as u32,
        ring[(p + 2) % 4096] as u32,
    ) & mask
}

/// How many slots among `0..n` were written after `tick` and hash like `h`.
pub open spec fn count_newer(
    ring: Seq<u8>,
    ticks: Seq<u32>,
    tick: u32,
    h: u32,
    hf: HashFn,
    mask: u32,
    n: int,
) -> nat
    decreases n,
{
    if n <= 0 {
        0
    } else {
        count_newer(ring, ticks, tick, h, hf, mask, n - 1) + if !unwritten(ticks[n - 1])
            && ticks[n - 1] > tick && hash_at(ring, n - 1, hf, mask) == h {
            1nat
        } else {
            0nat
        }
    }
}

/// The hash of the three bytes from slot `p`.
fn hash_slot(ring: &[u8], p: usize, hf: HashFn, mask: u32) -> (h: u32)
    requires
        ring@.len() == 4096,
        p < 4096,
    ensures
        h == hash_at(ring@, p as int, hf, mask),
{
    proof {
        lemma_mask(p);
        lemma_mask((p + 1) as usize);
        lemma_mask((p + 2) as usize);
    }
    let b0 = ring[p] as u32;
    let b1 = ring[(p + 1) & 0x0fff] as u32;
    let b2 = ring[(p + 2) & 0x0fff] as u32;
    hf.raw(b0, b1, b2) & mask
}

/// The rank of slot `pos` in its hash chain, 1 for the newest: one more than
/// the number of slots written after it with the same masked hash; `None`
/// for a slot never written.
pub fn chain_rank(ring: &[u8], write_tick: &[u32], pos: usize, hf: HashFn, mask: u32) -> (res:
    Option<usize>)
    requires
        ring@.len() == 4096,
        write_tick@.len() == 4096,
        pos < 4096,
    ensures
        res == (if unwritten(write_tick@[pos as int]) {
            None
        } else {
            Some(
                (1 + count_newer(
                    ring@,
                    write_tick@,
                    write_tick@[pos as int],
                    hash_at(ring@, pos as int, hf, mask),
                    hf,
                    mask,
                    4096,
                )) as usize,
            )
        }),
{
    if write_tick[pos] == u32::MAX {
        return None;
    }
    let target_tick = write_tick[pos];
    let target_hash = hash_slot(ring, pos, hf, mask);
    let mut newer: usize = 0;
    let mut p: usize = 0;
    while p < 4096
        invariant
            ring@.len() == 4096,
            write_tick@.len() == 4096,
            p <= 4096,
            newer <= p,
            newer == count_newer(ring@, write_tick@, target_tick, target_hash, hf, mask, p as int),
        decreases 4096 - p,
    {
        let t = write_tick[p];
        if t != u32::MAX && t > target_tick {
            if hash_slot(ring, p, hf, mask) == target_hash {
                newer += 1;
            }
        }
        p += 1;
    }
    Some(1 + newer)
}

/// Whether `target` occurs from slot `pos` on, every slot it covers written.
pub open spec fn genuine_at(ring: Seq<u8>, ticks: Seq<u32>, target: Seq<u8>, pos: int) -> bool {
    forall|k: int|
        0 <= k < target.len() ==> #[trigger] ring[(pos + k) % 4096] == target[k] && !unwritten(
            ticks[(pos + k) % 4096],
        )
}

/// The slots among `0..n`, increasing, where `target` genuinely occurs.
pub open spec fn genuine_positions(ring: Seq<u8>, ticks: Seq<u32>, target: Seq<u8>, n: int) -> Seq<
    usize,
>
    decreases n,
{
    if n <= 0 {
        Seq::empty()
    } else {
        let prev = genuine_positions(ring, ticks, target, n - 1);
        if genuine_at(ring, ticks, target, n - 1) {
            prev.push((n - 1) as usize)
        } else {
            prev
        }
    }
}

/// Every slot from which `target` occurs with all its slots written; none
/// for an empty target.
pub fn find_genuine_occurrences(ring: &[u8], write_tick: &[u32], target: &[u8]) -> (out: Vec<usize>)
    requires
        ring@.len() == 4096,
        write_tick@.len() == 4096,
        target@.len() + 4096 <= usize::MAX,
    ensures
        out@ == (if target@.len() == 0 {
            Seq::empty()
        } else {
            genuine_positions(ring@, write_tick@, target@, 4096)
        }),
{
    let mut out: Vec<usize> = Vec::new();
    if target.len() == 0 {
        return out;
    }
    let mut pos: usize = 0;
    while pos < 4096
        invariant
            ring@.len() == 4096,
            write_tick@.len() == 4096,
            pos <= 4096,
            target@.len() + 4096 <= usize::MAX,
            out@ == genuine_positions(ring@, write_tick@, target@, pos as int),
        decreases 4096 - pos,
    {
        let mut k: usize = 0;
        let mut ok = true;
        while ok && k < target.len()
            invariant
                ring@.len() == 4096,
                write_tick@.len() == 4096,
                pos < 4096,
                target@.len() + 4096 <= usize::MAX,
                k <= target@.len(),
                ok ==> forall|j: int|
                    0 <= j < k ==> #[trigger] ring@[(pos + j) % 4096] == target@[j] && !unwritten(
                        write_tick@[(pos + j) % 4096],
                    ),
                !ok ==> !genuine_at(ring@, write_tick@, target@, pos as int),
            decreases target@.len() - k + (if ok {
                1int
            } else {
                0int
            }),
        {
            proof {
                lemma_mask((pos + k) as usize);
            }
            let slot = (pos + k) & 0x0fff;
            if ring[slot] != target[k] || write_tick[slot] == u32::MAX {
                ok = false;
                assert(!(ring@[(pos + k) % 4096] == target@[k as int] && !unwritten(
                    write_tick@[(pos + k) % 4096],
                )));
            } else {
                k += 1;
            }
        }
        if ok {
            assert(genuine_at(ring@, write_tick@, target@, pos as int));
            out.push(pos);
        }
        pos += 1;
    }
    out
}

/// The index of the last of the first `n` input bytes written to slot `m`
/// by a replay that writes the input from slot 0xfee on; `u32::MAX` when
/// none was.
pub open spec fn last_write(n: int, m: int) -> u32
    decreases n,
{
    if n <= 0 {
        u32::MAX
    } else if head_of(n - 1) == m {
        (n - 1) as u32
    } else {
        last_write(n - 1, m)
    }
}

/// The write ticks of all slots after the first `n` input bytes.
pub open spec fn fed_ticks(n: int) -> Seq<u32> {
    Seq::new(4096, |m: int| last_write(n, m))
}

/// The input position before token `k`: the bytes of the tokens before it,
/// no further than the end of the input.
pub open spec fn fed_before(ts: Seq<Token>, input_len: int, k: int) -> int {
    let t = total_size(ts.take(k)) as int;
    if t < input_len {
        t
    } else {
        input_len
    }
}

/// Token `k` is a match whose source slot has been written: its chain rank
/// is measured.
pub open spec fn rank_counted(ts: Seq<Token>, input: Seq<u8>, k: int) -> bool {
    match ts[k] {
        Token::Match { pos, .. } => !unwritten(
            fed_ticks(fed_before(ts, input.len() as int, k))[pos as int % 4096],
        ),
        Token::Literal(_) => false,
    }
}

/// Token `k` is a match whose source slot has never been written.
pub open spec fn rank_skipped(ts: Seq<Token>, input: Seq<u8>, k: int) -> bool {
    ts[k] is Match && !rank_counted(ts, input, k)
}

/// The rank of slot `p` in its chain: one more than the slots written after
/// it with the same masked hash.
pub open spec fn slot_rank(ring: Seq<u8>, ticks: Seq<u32>, p: int, hf: HashFn, mask: u32) -> int {
    1 + count_newer(ring, ticks, ticks[p], hash_at(ring, p, hf, mask), hf, mask, 4096) as int
}

/// The chain rank of the source slot of match `k`, in the ring and ticks of
/// the replay that has written the input up to that token.
pub open spec fn stream_rank(ts: Seq<Token>, input: Seq<u8>, k: int, hf: HashFn, mask: u32) -> int {
    let n = fed_before(ts, input.len() as int, k);
    slot_rank(ring_of(input.take(n)), fed_ticks(n), (ts[k]->Match_pos) as int % 4096, hf, mask)
}

/// The largest measured rank among the first `k` tokens, 0 for none.
pub open spec fn max_rank_upto(ts: Seq<Token>, input: Seq<u8>, hf: HashFn, mask: u32, k: int) -> int
    decreases k,
{
    if k <= 0 {
        0
    } else {
        let m = max_rank_upto(ts, input, hf, mask, k - 1);
        if rank_counted(ts, input, k - 1) && stream_rank(ts, input, k - 1, hf, mask) > m {
            stream_rank(ts, input, k - 1, hf, mask)
        } else {
            m
        }
    }
}

/// The input position and rank of the first match among the first `k`
/// tokens that reaches the largest measured rank.
pub open spec fn worst_upto(ts: Seq<Token>, input: Seq<u8>, hf: HashFn, mask: u32, k: int) -> Option<
    (usize, usize),
>
    decreases k,
{
    if k <= 0 {
        None
    } else if rank_counted(ts, input, k - 1) && stream_rank(ts, input, k - 1, hf, mask)
        > max_rank_upto(ts, input, hf, mask, k - 1) {
        Some(
            (
                fed_before(ts, input.len() as int, k - 1) as usize,
                stream_rank(ts, input, k - 1, hf, mask) as usize,
            ),
        )
    } else {
        worst_upto(ts, input, hf, mask, k - 1)
    }
}

/// How many of the first `k` tokens satisfy `rank_counted`.
pub open spec fn count_counted(ts: Seq<Token>, input: Seq<u8>, k: int) -> nat
    decreases k,
{
    if k <= 0 {
        0
    } else {
        count_counted(ts, input, k - 1) + if rank_counted(ts, input, k - 1) {
            1nat
        } else {
            0nat
        }
    }
}

/// How many of the first `k` tokens satisfy `rank_skipped`.
pub open spec fn count_skipped(ts: Seq<Token>, input: Seq<u8>, k: int) -> nat
    decreases k,
{
    if k <= 0 {
        0
    } else {
        count_skipped(ts, input, k - 1) + if rank_skipped(ts, input, k - 1) {
            1nat
        } else {
            0nat
        }
    }
}

/// The depth over the first `k` tokens is the largest rank among their
/// measured matches: every one is at most it, and unless it is 0 one of
/// them reaches it, the one `worst_upto` names.
pub proof fn lemma_max_rank_is_largest(ts: Seq<Token>, input: Seq<u8>, hf: HashFn, mask: u32, k: int)
    requires
        0 <= k <= ts.len(),
    ensures
        forall|j: int|
            0 <= j < k && rank_counted(ts, input, j) ==> #[trigger] stream_rank(ts, input, j, hf, mask)
                <= max_rank_upto(ts, input, hf, mask, k),
        max_rank_upto(ts, input, hf, mask, k) == 0 <==> worst_upto(ts, input, hf, mask, k) is None,
        max_rank_upto(ts, input, hf, mask, k) > 0 ==> exists|j: int|
            0 <= j < k && rank_counted(ts, input, j) && #[trigger] stream_rank(ts, input, j, hf, mask)
                == max_rank_upto(ts, input, hf, mask, k) && worst_upto(ts, input, hf, mask, k) == Some(
                (
                    fed_before(ts, input.len() as int, j) as usize,
                    stream_rank(ts, input, j, hf, mask) as usize,
                ),
            ),
    decreases k,
{
    if k > 0 {
        lemma_max_rank_is_largest(ts, input, hf, mask, k - 1);
        assert(stream_rank(ts, input, k - 1, hf, mask) >= 1);
    }
}

/// The hash function of combination `ci`: hash functions outer, masks inner.
pub open spec fn combo_hash(ci: int) -> HashFn {
    seq![HashFn::H1, HashFn::H2, HashFn::H3][ci / 3]
}

/// The mask of combination `ci`.
pub open spec fn combo_mask(ci: int) -> u32 {
    seq![0xfffu32, 0x7ffu32, 0x3ffu32][ci % 3]
}

/// For each of the nine (hash, mask) combinations, the deepest chain rank
/// that a stream's matches need, with where it was first reached; and how
/// many matches were measured and how many came from slots never written.
pub struct ChainDepths {
    pub max_rank: Vec<usize>,
    pub worst: Vec<Option<(usize, usize)>>,
    pub checked: usize,
    pub skipped: usize,
}

/// The ticks after one more input byte.
proof fn lemma_fed_ticks_step(n: int)
    requires
        0 <= n,
    ensures
        fed_ticks(n + 1) == fed_ticks(n).update(head_of(n), n as u32),
{
    lemma_mod_basics(0xfee + n);
    assert(fed_ticks(n + 1) =~= fed_ticks(n).update(head_of(n), n as u32));
}

/// Writes input bytes from `*p` on for at most `l` of them, stopping at the
/// end of the input, with their ticks.
fn feed_bytes(ring: &mut Vec<u8>, ticks: &mut Vec<u32>, r: &mut usize, p: &mut usize, input: &[u8], l: usize)
    requires
        input@.len() < u32::MAX,
        *old(p) <= input@.len(),
        old(ring)@ == ring_of(input@.take(*old(p) as int)),
        old(ticks)@ == fed_ticks(*old(p) as int),
        *old(r) as int == head_of(*old(p) as int),
    ensures
        *final(p) as int == (if *old(p) + l < input@.len() {
            *old(p) + l
        } else {
            input@.len() as int
        }),
        final(ring)@ == ring_of(input@.take(*final(p) as int)),
        final(ticks)@ == fed_ticks(*final(p) as int),
        *final(r) as int == head_of(*final(p) as int),
{
    let n = input.len();
    let ghost p0 = *p as int;
    let mut j: usize = 0;
    while j < l && *p < n
        invariant
            n == input@.len(),
            n < u32::MAX,
            *p <= n,
            j <= l,
            *p as int == p0 + j,
            ring@ == ring_of(input@.take(*p as int)),
            ticks@ == fed_ticks(*p as int),
            *r as int == head_of(*p as int),
        decreases l - j,
    {
        let ghost w = input@.take(*p as int);
        let b = input[*p];
        proof {
            lemma_ring_of_len(w);
            lemma_mod_basics(0xfee + *p as int);
            lemma_fed_ticks_step(*p as int);
            lemma_ring_of_concat(w, seq![b]);
            assert(w + seq![b] =~= input@.take(*p + 1));
            lemma_mod_add(0xfee + *p as int, 1);
        }
        ticks.set(*r, *p as u32);
        push_byte(ring, r, b);
        *p = *p + 1;
        j = j + 1;
    }
}

/// At most `n` slots among `0..n` are counted.
proof fn lemma_count_newer_bound(ring: Seq<u8>, ticks: Seq<u32>, tick: u32, h: u32, hf: HashFn, mask: u32, n: int)
    requires
        0 <= n,
    ensures
        count_newer(ring, ticks, tick, h, hf, mask, n) <= n,
    decreases n,
{
    if n > 0 {
        lemma_count_newer_bound(ring, ticks, tick, h, hf, mask, n - 1);
    }
}

/// `m` and `w` hold, for each combination, the depth and where it was
/// first reached over the first `k` tokens.
pub open spec fn depths_at(ts: Seq<Token>, input: Seq<u8>, k: int, m: Seq<usize>, w: Seq<Option<(usize, usize)>>) -> bool {
    &&& m.len() == 9
    &&& w.len() == 9
    &&& forall|ci: int|
        0 <= ci < 9 ==> #[trigger] m[ci] == max_rank_upto(ts, input, combo_hash(ci), combo_mask(ci), k)
            && w[ci] == worst_upto(ts, input, combo_hash(ci), combo_mask(ci), k)
}

/// `m2` and `w2` are `m` and `w` with each depth raised to the rank of slot
/// `pu` under its combination, the input position `p` recorded where a
/// depth grows.
pub open spec fn raised(
    m: Seq<usize>,
    w: Seq<Option<(usize, usize)>>,
    m2: Seq<usize>,
    w2: Seq<Option<(usize, usize)>>,
    ring: Seq<u8>,
    ticks: Seq<u32>,
    pu: int,
    p: usize,
) -> bool {
    &&& m2.len() == 9
    &&& w2.len() == 9
    &&& forall|ci: int|
        0 <= ci < 9 ==> {
            let rk = slot_rank(ring, ticks, pu, combo_hash(ci), combo_mask(ci));
            &&& #[trigger] m2[ci] as int == (if rk > m[ci] {
                rk
            } else {
                m[ci] as int
            })
            &&& w2[ci] == (if rk > m[ci] {
                Some((p, rk as usize))
            } else {
                w[ci]
            })
        }
}

/// A token whose rank is not measured leaves every depth as it was.
proof fn lemma_depths_unchanged(ts: Seq<Token>, input: Seq<u8>, k: int, m: Seq<usize>, w: Seq<Option<(usize, usize)>>)
    requires
        0 <= k,
        !rank_counted(ts, input, k),
        depths_at(ts, input, k, m, w),
    ensures
        depths_at(ts, input, k + 1, m, w),
{
    assert forall|ci: int| 0 <= ci < 9 implies #[trigger] m[ci] == max_rank_upto(
        ts,
        input,
        combo_hash(ci),
        combo_mask(ci),
        k + 1,
    ) && w[ci] == worst_upto(ts, input, combo_hash(ci), combo_mask(ci), k + 1) by {
        assert(m[ci] == max_rank_upto(ts, input, combo_hash(ci), combo_mask(ci), k));
    }
}

/// A measured match raises each depth to its rank when that is deeper.
proof fn lemma_depths_counted(
    ts: Seq<Token>,
    input: Seq<u8>,
    k: int,
    ring: Seq<u8>,
    ticks: Seq<u32>,
    pu: int,
    p: usize,
    m: Seq<usize>,
    w: Seq<Option<(usize, usize)>>,
    m2: Seq<usize>,
    w2: Seq<Option<(usize, usize)>>,
)
    requires
        0 <= k < ts.len(),
        rank_counted(ts, input, k),
        p as int == fed_before(ts, input.len() as int, k),
        ring == ring_of(input.take(p as int)),
        ticks == fed_ticks(p as int),
        pu == (ts[k]->Match_pos) as int % 4096,
        depths_at(ts, input, k, m, w),
        raised(m, w, m2, w2, ring, ticks, pu, p),
    ensures
        depths_at(ts, input, k + 1, m2, w2),
{
    assert forall|ci: int| 0 <= ci < 9 implies #[trigger] m2[ci] == max_rank_upto(
        ts,
        input,
        combo_hash(ci),
        combo_mask(ci),
        k + 1,
    ) && w2[ci] == worst_upto(ts, input, combo_hash(ci), combo_mask(ci), k + 1) by {
        assert(m[ci] == max_rank_upto(ts, input, combo_hash(ci), combo_mask(ci), k));
        assert(w[ci] == worst_upto(ts, input, combo_hash(ci), combo_mask(ci), k));
        let hf = combo_hash(ci);
        let mask = combo_mask(ci);
        let rk = slot_rank(ring, ticks, pu, hf, mask);
        assert(stream_rank(ts, input, k, hf, mask) == rk);
        let prev = max_rank_upto(ts, input, hf, mask, k);
        assert(max_rank_upto(ts, input, hf, mask, k + 1) == if rk > prev {
            rk
        } else {
            prev
        });
        assert(worst_upto(ts, input, hf, mask, k + 1) == if rk > prev {
            Some((p, rk as usize))
        } else {
            worst_upto(ts, input, hf, mask, k)
        });
        assert(m2[ci] as int == (if rk > m[ci] {
            rk
        } else {
            m[ci] as int
        }));
    }
}

/// Raises each of the nine depths to the rank of slot `pu` under its
/// combination, recording input position `p` where a depth grows.
fn record_ranks(
    max_rank: &mut Vec<usize>,
    worst: &mut Vec<Option<(usize, usize)>>,
    hashes: &Vec<HashFn>,
    masks: &Vec<u32>,
    ring: &Vec<u8>,
    ticks: &Vec<u32>,
    pu: usize,
    p: usize,
)
    requires
        old(max_rank)@.len() == 9,
        old(worst)@.len() == 9,
        hashes@ == seq![HashFn::H1, HashFn::H2, HashFn::H3],
        masks@ == seq![0xfffu32, 0x7ffu32, 0x3ffu32],
        ring@.len() == 4096,
        ticks@.len() == 4096,
        pu < 4096,
        !unwritten(ticks@[pu as int]),
    ensures
        raised(old(max_rank)@, old(worst)@, final(max_rank)@, final(worst)@, ring@, ticks@, pu as int, p),
{
    let ghost m0 = max_rank@;
    let ghost w0 = worst@;
    let mut ci: usize = 0;
    while ci < 9
        invariant
            hashes@ == seq![HashFn::H1, HashFn::H2, HashFn::H3],
            masks@ == seq![0xfffu32, 0x7ffu32, 0x3ffu32],
            ring@.len() == 4096,
            ticks@.len() == 4096,
            pu < 4096,
            !unwritten(ticks@[pu as int]),
            ci <= 9,
            m0.len() == 9,
            w0.len() == 9,
            max_rank@.len() == 9,
            worst@.len() == 9,
            forall|cj: int| ci <= cj < 9 ==> #[trigger] max_rank@[cj] == m0[cj],
            forall|cj: int| ci <= cj < 9 ==> #[trigger] worst@[cj] == w0[cj],
            forall|cj: int|
                0 <= cj < ci ==> #[trigger] max_rank@[cj] as int == (if slot_rank(
                    ring@,
                    ticks@,
                    pu as int,
                    combo_hash(cj),
                    combo_mask(cj),
                ) > m0[cj] {
                    slot_rank(ring@, ticks@, pu as int, combo_hash(cj), combo_mask(cj))
                } else {
                    m0[cj] as int
                }),
            forall|cj: int|
                0 <= cj < ci ==> #[trigger] worst@[cj] == (if slot_rank(
                    ring@,
                    ticks@,
                    pu as int,
                    combo_hash(cj),
                    combo_mask(cj),
                ) > m0[cj] {
                    Some((p, slot_rank(ring@, ticks@, pu as int, combo_hash(cj), combo_mask(cj)) as usize))
                } else {
                    w0[cj]
                }),
        decreases 9 - ci,
    {
        let hf = hashes[ci / 3];
        let mask = masks[ci % 3];
        assert(hf == combo_hash(ci as int));
        assert(mask == combo_mask(ci as int));
        let ghost rk_spec = slot_rank(ring@, ticks@, pu as int, hf, mask);
        proof {
            lemma_count_newer_bound(
                ring@,
                ticks@,
                ticks@[pu as int],
                hash_at(ring@, pu as int, hf, mask),
                hf,
                mask,
                4096,
            );
        }
        let rk = match chain_rank(ring, ticks, pu, hf, mask) {
            Some(v) => v,
            None => 0,
        };
        assert(rk as int == rk_spec);
        assert(max_rank@[ci as int] == m0[ci as int]);
        if rk > max_rank[ci] {
            max_rank.set(ci, rk);
            worst.set(ci, Some((p, rk)));
        }
        ci += 1;
    }
}

/// The chain depths that the matches of `tokens` need, replayed over
/// `ring_input` (see `ChainDepths`).
pub fn chain_depths(tokens: &[Token], ring_input: &[u8]) -> (res: ChainDepths)
    requires
        ring_input@.len() < u32::MAX,
    ensures
        res.checked == count_counted(tokens@, ring_input@, tokens@.len() as int),
        res.skipped == count_skipped(tokens@, ring_input@, tokens@.len() as int),
        depths_at(tokens@, ring_input@, tokens@.len() as int, res.max_rank@, res.worst@),
{
    let hashes = all_hashes();
    let masks = hash_masks();
    let n = ring_input.len();
    let mut ring = new_ring();
    let mut ticks: Vec<u32> = Vec::new();
    let mut i: usize = 0;
    while i < 4096
        invariant
            i <= 4096,
            ticks@.len() == i,
            forall|m: int| 0 <= m < i ==> ticks@[m] == u32::MAX,
        decreases 4096 - i,
    {
        ticks.push(u32::MAX);
        i += 1;
    }
    let mut max_rank: Vec<usize> = Vec::new();
    let mut worst: Vec<Option<(usize, usize)>> = Vec::new();
    let mut c: usize = 0;
    while c < 9
        invariant
            c <= 9,
            max_rank@.len() == c,
            worst@.len() == c,
            forall|ci: int| 0 <= ci < c ==> max_rank@[ci] == 0 && worst@[ci] is None,
        decreases 9 - c,
    {
        max_rank.push(0);
        worst.push(None);
        c += 1;
    }
    let mut r: usize = 0x0fee;
    let mut p: usize = 0;
    let mut checked: usize = 0;
    let mut skipped: usize = 0;
    proof {
        assert(ticks@ =~= fed_ticks(0));
        assert(ring_input@.take(0) =~= Seq::<u8>::empty());
        assert(ring_of(Seq::<u8>::empty()) =~= initial_ring());
        lemma_mod_by(0xfee, 0, 0xfee);
        assert(tokens@.take(0) =~= Seq::<Token>::empty());
    }
    let mut k: usize = 0;
    while k < tokens.len()
        invariant
            hashes@ == seq![HashFn::H1, HashFn::H2, HashFn::H3],
            masks@ == seq![0xfffu32, 0x7ffu32, 0x3ffu32],
            n == ring_input@.len(),
            n < u32::MAX,
            k <= tokens@.len(),
            p <= n,
            p as int == fed_before(tokens@, n as int, k as int),
            ring@ == ring_of(ring_input@.take(p as int)),
            ring@.len() == 4096,
            ticks@ == fed_ticks(p as int),
            r as int == head_of(p as int),
            r < 4096,
            checked == count_counted(tokens@, ring_input@, k as int),
            skipped == count_skipped(tokens@, ring_input@, k as int),
            checked + skipped <= k,
            depths_at(tokens@, ring_input@, k as int, max_rank@, worst@),
        decreases tokens@.len() - k,
    {
        let t = tokens[k];
        let ghost ki = k as int;
        proof {
            lemma_ring_of_len(ring_input@.take(p as int));
            lemma_mod_basics(0xfee + p as int);
        }
        match t {
            Token::Match { pos, .. } => {
                let pu = (pos as usize) & 0x0fff;
                proof {
                    lemma_mask(pos as usize);
                }
                if ticks[pu] != u32::MAX {
                    assert(rank_counted(tokens@, ring_input@, ki));
                    checked += 1;
                    let ghost m_old = max_rank@;
                    let ghost w_old = worst@;
                    record_ranks(&mut max_rank, &mut worst, &hashes, &masks, &ring, &ticks, pu, p);
                    proof {
                        lemma_depths_counted(
                            tokens@,
                            ring_input@,
                            ki,
                            ring@,
                            ticks@,
                            pu as int,
                            p,
                            m_old,
                            w_old,
                            max_rank@,
                            worst@,
                        );
                    }
                } else {
                    assert(rank_skipped(tokens@, ring_input@, ki));
                    skipped += 1;
                    proof {
                        lemma_depths_unchanged(tokens@, ring_input@, ki, max_rank@, worst@);
                    }
                }
            },
            Token::Literal(_) => {
                assert(!rank_counted(tokens@, ring_input@, ki) && !rank_skipped(tokens@, ring_input@, ki));
                proof {
                    lemma_depths_unchanged(tokens@, ring_input@, ki, max_rank@, worst@);
                }
            },
        }
        let l = token_size_exec(&t);
        feed_bytes(&mut ring, &mut ticks, &mut r, &mut p, ring_input, l);
        proof {
            assert(tokens@.take(ki + 1).drop_last() =~= tokens@.take(ki));
            assert(tokens@.take(ki + 1).last() == t);
            lemma_ring_of_len(ring_input@.take(p as int));
            lemma_mod_basics(0xfee + p as int);
        }
        k += 1;
    }
    assert(tokens@.take(tokens@.len() as int) =~= tokens@);
    ChainDepths { max_rank, worst, checked, skipped }
}

/// Folds the depths of one more file (index `file`) into depths over a
/// corpus: a depth grows only where the file's is deeper, and then records
/// the file with the file's first position reaching it.
pub fn merge_depths(
    max_rank: &mut Vec<usize>,
    worst: &mut Vec<Option<(usize, usize, usize)>>,
    file: usize,
    d: &ChainDepths,
)
    requires
        old(max_rank)@.len() == 9,
        old(worst)@.len() == 9,
        d.max_rank@.len() == 9,
        d.worst@.len() == 9,
    ensures
        final(max_rank)@.len() == 9,
        final(worst)@.len() == 9,
        forall|ci: int|
            0 <= ci < 9 ==> #[trigger] final(max_rank)@[ci] == (if d.max_rank@[ci] > old(max_rank)@[ci] {
                d.max_rank@[ci]
            } else {
                old(max_rank)@[ci]
            }),
        forall|ci: int|
            0 <= ci < 9 ==> #[trigger] final(worst)@[ci] == (if d.max_rank@[ci] > old(max_rank)@[ci] {
                match d.worst@[ci] {
                    Some((p, rk)) => Some((file, p, rk)),
                    None => None,
                }
            } else {
                old(worst)@[ci]
            }),
{
    let ghost m0 = max_rank@;
    let ghost w0 = worst@;
    let mut ci: usize = 0;
    while ci < 9
        invariant
            ci <= 9,
            m0.len() == 9,
            w0.len() == 9,
            max_rank@.len() == 9,
            worst@.len() == 9,
            d.max_rank@.len() == 9,
            d.worst@.len() == 9,
            forall|cj: int| ci <= cj < 9 ==> #[trigger] max_rank@[cj] == m0[cj],
            forall|cj: int| ci <= cj < 9 ==> #[trigger] worst@[cj] == w0[cj],
            forall|cj: int|
                0 <= cj < ci ==> #[trigger] max_rank@[cj] == (if d.max_rank@[cj] > m0[cj] {
                    d.max_rank@[cj]
                } else {
                    m0[cj]
                }),
            forall|cj: int|
                0 <= cj < ci ==> #[trigger] worst@[cj] == (if d.max_rank@[cj] > m0[cj] {
                    match d.worst@[cj] {
                        Some((p, rk)) => Some((file, p, rk)),
                        None => None,
                    }
                } else {
                    w0[cj]
                }),
        decreases 9 - ci,
    {
        assert(max_rank@[ci as int] == m0[ci as int]);
        if d.max_rank[ci] > max_rank[ci] {
            max_rank.set(ci, d.max_rank[ci]);
            let w = match d.worst[ci] {
                Some((p, rk)) => Some((file, p, rk)),
                None => None,
            };
            worst.set(ci, w);
        }
        ci += 1;
    }
}

/// How many of the first `n` input bytes were written to slot `m`.
pub open spec fn write_count(n: int, m: int) -> nat
    decreases n,
{
    if n <= 0 {
        0
    } else {
        write_count(n - 1, m) + if head_of(n - 1) == m {
            1nat
        } else {
            0nat
        }
    }
}

/// The write counts of all slots after the first `n` input bytes.
pub open spec fn fed_writes(n: int) -> Seq<u32> {
    Seq::new(4096, |m: int| write_count(n, m) as u32)
}

/// No slot is written more often than there were bytes.
proof fn lemma_write_count_bound(n: int, m: int)
    requires
        0 <= n,
    ensures
        write_count(n, m) <= n,
    decreases n,
{
    if n > 0 {
        lemma_write_count_bound(n - 1, m);
    }
}

/// The ring, write ticks, write counts and head of the replay that has
/// written the first `n` input bytes from slot 0xfee on.
pub fn replay_fed(input: &[u8], n: usize) -> (res: (Vec<u8>, Vec<u32>, Vec<u32>, usize))
    requires
        n <= input@.len(),
        input@.len() < u32::MAX,
    ensures
        res.0@ == ring_of(input@.take(n as int)),
        res.1@ == fed_ticks(n as int),
        res.2@ == fed_writes(n as int),
        res.3 as int == head_of(n as int),
{
    let mut ring = new_ring();
    let mut ticks: Vec<u32> = Vec::new();
    let mut writes: Vec<u32> = Vec::new();
    let mut i: usize = 0;
    while i < 4096
        invariant
            i <= 4096,
            ticks@.len() == i,
            writes@.len() == i,
            forall|m: int| 0 <= m < i ==> ticks@[m] == u32::MAX && writes@[m] == 0,
        decreases 4096 - i,
    {
        ticks.push(u32::MAX);
        writes.push(0);
        i += 1;
    }
    proof {
        assert(ticks@ =~= fed_ticks(0));
        assert(writes@ =~= fed_writes(0));
        assert(input@.take(0) =~= Seq::<u8>::empty());
        assert(ring_of(Seq::<u8>::empty()) =~= initial_ring());
        lemma_mod_by(0xfee, 0, 0xfee);
    }
    let mut r: usize = 0x0fee;
    let mut p: usize = 0;
    while p < n
        invariant
            n <= input@.len(),
            input@.len() < u32::MAX,
            p <= n,
            ring@ == ring_of(input@.take(p as int)),
            ticks@ == fed_ticks(p as int),
            writes@ == fed_writes(p as int),
            r as int == head_of(p as int),
        decreases n - p,
    {
        let ghost w = input@.take(p as int);
        let b = input[p];
        proof {
            lemma_ring_of_len(w);
            lemma_mod_basics(0xfee + p as int);
            lemma_fed_ticks_step(p as int);
            lemma_write_count_bound(p as int, r as int);
            lemma_write_count_bound(p + 1, r as int);
            assert(fed_writes(p + 1) =~= fed_writes(p as int).update(r as int, (write_count(p as int, r as int) + 1) as u32));
            lemma_ring_of_concat(w, seq![b]);
            assert(w + seq![b] =~= input@.take(p + 1));
            lemma_mod_add(0xfee + p as int, 1);
        }
        let c = writes[r];
        writes.set(r, c + 1);
        ticks.set(r, p as u32);
        push_byte(&mut ring, &mut r, b);
        p = p + 1;
    }
    (ring, ticks, writes, r)
}

} // verus!
