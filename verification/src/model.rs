//! Mathematical model of the LF2 LZSS ring buffer and of token decoding.
//!
//! The decoder starts with a 4096-byte ring filled with spaces (0x20) and a
//! write head at 0xfee.  Every emitted byte is written at the head, which then
//! advances by one (modulo 4096).  A literal emits one byte; a match
//! `(pos, len)` emits `len` bytes, the k-th one being read from ring position
//! `pos + k` after the first k bytes of the match have been written.
use vstd::prelude::*;

verus! {

/// Position of the write head before the first byte is emitted.
pub open spec fn initial_head() -> int {
    0xfee
}

/// A token of the LF2 LZSS stream.
#[derive(Clone, Copy, Debug, PartialEq, Eq, Structural)]
pub enum Token {
    /// One byte emitted as is.
    Literal(u8),
    /// `len` bytes copied from ring position `pos` onwards.
    Match { pos: u16, len: u8 },
}

/// The ring that results from writing `bytes` one after another into `ring0`,
/// the first one at position `h0` (taken modulo 4096).
pub open spec fn ring_after(ring0: Seq<u8>, h0: int, bytes: Seq<u8>) -> Seq<u8>
    decreases bytes.len(),
{
    if bytes.len() == 0 {
        ring0
    } else {
        ring_after(ring0, h0, bytes.drop_last()).update(
            (h0 + bytes.len() - 1) % 4096,
            bytes.last(),
        )
    }
}

/// The ring before anything has been emitted: 4096 spaces.
pub open spec fn initial_ring() -> Seq<u8> {
    Seq::new(4096, |i: int| 0x20u8)
}

/// The ring of a decoder that has emitted `out`.
pub open spec fn ring_of(out: Seq<u8>) -> Seq<u8> {
    ring_after(initial_ring(), initial_head(), out)
}

/// The write head of a decoder that has emitted `n` bytes.
pub open spec fn head_of(n: int) -> int {
    (initial_head() + n) % 4096
}

/// Distance from the write head `r` back to ring position `pos`.
pub open spec fn ring_dist(r: int, pos: int) -> int {
    (r - pos) % 4096
}

/// The byte a match from `pos` produces at offset `k`, when the ring before the
/// match is `ring`, the head is `r` and the match produces `target`: a byte the
/// match itself wrote `dist` steps earlier, or else the ring's own byte.
pub open spec fn expected_byte(ring: Seq<u8>, r: int, pos: int, target: Seq<u8>, k: int) -> u8 {
    let d = ring_dist(r, pos);
    if 0 < d && d <= k {
        target[k - d]
    } else {
        ring[(pos + k) % 4096]
    }
}

/// Whether a match from `pos` of length `len` reproduces the first `len`
/// bytes of `target`.
pub open spec fn match_holds(ring: Seq<u8>, r: int, pos: int, target: Seq<u8>, len: int) -> bool {
    &&& 0 <= len <= target.len()
    &&& forall|k: int| 0 <= k < len ==> target[k] == #[trigger] expected_byte(ring, r, pos, target, k)
}

/// The offset, from `k` on and at most `cap`, of the first byte of `target`
/// that a match from `pos` does not reproduce.
pub open spec fn run_from(ring: Seq<u8>, r: int, pos: int, target: Seq<u8>, k: int, cap: int) -> int
    decreases cap - k,
{
    if k < cap && target[k] == expected_byte(ring, r, pos, target, k) {
        run_from(ring, r, pos, target, k + 1, cap)
    } else {
        k
    }
}

/// The longest match worth looking for in `target`: its length, at most 18.
pub open spec fn match_cap(target: Seq<u8>) -> int {
    if target.len() < 18 {
        target.len() as int
    } else {
        18
    }
}

/// Length of the longest match from `pos` reproducing a prefix of `target`,
/// or 0 when that is shorter than 3 bytes.
pub open spec fn match_len_at(ring: Seq<u8>, r: int, pos: int, target: Seq<u8>) -> int {
    let cap = match_cap(target);
    if cap < 3 {
        0
    } else {
        let l = run_from(ring, r, pos, target, 0, cap);
        if l >= 3 {
            l
        } else {
            0
        }
    }
}

/// The bytes a match `(pos, len)` produces on a ring `ring` whose write head
/// is `h`: byte k is read from slot `pos + k` once the first k bytes of the
/// match have been written.
pub open spec fn copy_from(ring: Seq<u8>, h: int, pos: int, len: nat) -> Seq<u8>
    decreases len,
{
    if len == 0 {
        Seq::empty()
    } else {
        let c = copy_from(ring, h, pos, (len - 1) as nat);
        c.push(ring_after(ring, h, c)[(pos + len - 1) % 4096])
    }
}

/// The bytes one token produces on a ring `ring` whose write head is `h`.
pub open spec fn expand_at(ring: Seq<u8>, h: int, t: Token) -> Seq<u8> {
    match t {
        Token::Literal(b) => seq![b],
        Token::Match { pos, len } => copy_from(ring, h, pos as int, len as nat),
    }
}

/// The bytes one token produces after `out` has been emitted.
pub open spec fn expand(t: Token, out: Seq<u8>) -> Seq<u8> {
    expand_at(ring_of(out), head_of(out.len() as int), t)
}

/// Number of bytes a token stands for.
pub open spec fn token_size(t: Token) -> nat {
    match t {
        Token::Literal(_) => 1,
        Token::Match { len, .. } => len as nat,
    }
}

/// The bytes a decoder emits for a token sequence.
pub open spec fn decode(ts: Seq<Token>) -> Seq<u8>
    decreases ts.len(),
{
    if ts.len() == 0 {
        Seq::empty()
    } else {
        let o = decode(ts.drop_last());
        o + expand(ts.last(), o)
    }
}

/// A token that any LF2 stream can carry: matches copy 3 to 18 bytes from a
/// ring position.
pub open spec fn token_wf(t: Token) -> bool {
    match t {
        Token::Literal(_) => true,
        Token::Match { pos, len } => pos < 4096 && 3 <= len <= 18,
    }
}

// ---------------------------------------------------------------------------
// Lemmas
// ---------------------------------------------------------------------------

/// Characterisation of `% 4096` by quotient and remainder.
pub proof fn lemma_mod_by(x: int, q: int, rem: int)
    requires
        0 <= rem < 4096,
        x == q * 4096 + rem,
    ensures
        x % 4096 == rem,
{
    vstd::arithmetic::div_mod::lemma_fundamental_div_mod_converse(x, 4096, q, rem);
}

/// `x % 4096` lies in range and differs from `x` by a multiple of 4096.
pub proof fn lemma_mod_basics(x: int)
    ensures
        0 <= x % 4096 < 4096,
        x == (x / 4096) * 4096 + x % 4096,
{
    vstd::arithmetic::div_mod::lemma_fundamental_div_mod(x, 4096);
}

/// Reducing a summand modulo 4096 first does not change the result.
pub proof fn lemma_mod_add(x: int, y: int)
    ensures
        (x % 4096 + y) % 4096 == (x + y) % 4096,
{
    lemma_mod_basics(x);
    lemma_mod_basics(x + y);
    lemma_mod_basics(x % 4096 + y);
    let q = (x % 4096 + y) / 4096 + x / 4096;
    assert(x + y == q * 4096 + (x % 4096 + y) % 4096) by (nonlinear_arith)
        requires
            x == (x / 4096) * 4096 + x % 4096,
            x % 4096 + y == ((x % 4096 + y) / 4096) * 4096 + (x % 4096 + y) % 4096,
            q == (x % 4096 + y) / 4096 + x / 4096,
    ;
    lemma_mod_by(x + y, q, (x % 4096 + y) % 4096);
}

/// For `0 <= j < 4096`, `(q - h) % 4096 == j` exactly when `q` is `h + j`
/// reduced modulo 4096.
pub proof fn lemma_mod_offset(q: int, h: int, j: int)
    requires
        0 <= q < 4096,
        0 <= j < 4096,
    ensures
        ((q - h) % 4096 == j) <==> (q == (h + j) % 4096),
{
    lemma_mod_basics(q - h);
    lemma_mod_basics(h + j);
    if (q - h) % 4096 == j {
        let k = (q - h) / 4096;
        assert(h + j == (-k) * 4096 + q) by (nonlinear_arith)
            requires
                q - h == k * 4096 + j,
        ;
        lemma_mod_by(h + j, -k, q);
    }
    if q == (h + j) % 4096 {
        let k = (h + j) / 4096;
        assert(q - h == (-k) * 4096 + j) by (nonlinear_arith)
            requires
                h + j == k * 4096 + q,
        ;
        lemma_mod_by(q - h, -k, j);
    }
}

/// Writing never changes the size of a 4096-byte ring.
pub proof fn lemma_ring_after_len(ring0: Seq<u8>, h0: int, bytes: Seq<u8>)
    requires
        ring0.len() == 4096,
    ensures
        ring_after(ring0, h0, bytes).len() == 4096,
    decreases bytes.len(),
{
    if bytes.len() > 0 {
        lemma_ring_after_len(ring0, h0, bytes.drop_last());
        lemma_mod_basics(h0 + bytes.len() - 1);
    }
}

/// Writing `a` and then `b` is writing `a + b`.
pub proof fn lemma_ring_after_concat(ring0: Seq<u8>, h0: int, a: Seq<u8>, b: Seq<u8>)
    ensures
        ring_after(ring0, h0, a + b) == ring_after(ring_after(ring0, h0, a), h0 + a.len(), b),
    decreases b.len(),
{
    if b.len() == 0 {
        assert(a + b =~= a);
    } else {
        assert((a + b).drop_last() =~= a + b.drop_last());
        lemma_ring_after_concat(ring0, h0, a, b.drop_last());
    }
}

/// What a slot holds after at most 4096 writes: the last byte written there,
/// or its old content.
pub proof fn lemma_ring_after_read(ring0: Seq<u8>, h0: int, bytes: Seq<u8>, q: int)
    requires
        ring0.len() == 4096,
        bytes.len() <= 4096,
        0 <= q < 4096,
    ensures
        ring_after(ring0, h0, bytes)[q] == (if (q - h0) % 4096 < bytes.len() {
            bytes[(q - h0) % 4096]
        } else {
            ring0[q]
        }),
    decreases bytes.len(),
{
    lemma_mod_basics(q - h0);
    if bytes.len() > 0 {
        let n = bytes.len() as int;
        lemma_ring_after_read(ring0, h0, bytes.drop_last(), q);
        lemma_ring_after_len(ring0, h0, bytes.drop_last());
        lemma_mod_offset(q, h0, n - 1);
        lemma_mod_basics(h0 + n - 1);
    }
}

/// The ring of any decoder has 4096 slots.
pub proof fn lemma_ring_of_len(out: Seq<u8>)
    ensures
        ring_of(out).len() == 4096,
{
    lemma_ring_after_len(initial_ring(), initial_head(), out);
}

/// Writing depends on the head only modulo 4096.
pub proof fn lemma_ring_after_mod(ring0: Seq<u8>, h0: int, bytes: Seq<u8>)
    ensures
        ring_after(ring0, h0, bytes) == ring_after(ring0, h0 % 4096, bytes),
    decreases bytes.len(),
{
    if bytes.len() > 0 {
        lemma_ring_after_mod(ring0, h0, bytes.drop_last());
        lemma_mod_add(h0, bytes.len() - 1);
    }
}

/// The ring after emitting `out + extra` is the ring after `out` with `extra`
/// written from the head.
pub proof fn lemma_ring_of_concat(out: Seq<u8>, extra: Seq<u8>)
    ensures
        ring_of(out + extra) == ring_after(ring_of(out), head_of(out.len() as int), extra),
{
    lemma_ring_after_concat(initial_ring(), initial_head(), out, extra);
    lemma_ring_after_mod(ring_of(out), initial_head() + out.len(), extra);
}

/// The byte at offset `k` of a match, as a decoder reads it, is the
/// `expected_byte` of the ring before the match, provided the first `k` bytes
/// were the first `k` bytes of `target`.
pub proof fn lemma_copy_read(ring: Seq<u8>, h: int, pos: int, c: Seq<u8>, target: Seq<u8>)
    requires
        ring.len() == 4096,
        c.len() < 4096,
        c.len() <= target.len(),
        c =~= target.take(c.len() as int),
    ensures
        ring_after(ring, h, c)[(pos + c.len()) % 4096] == expected_byte(
            ring,
            h,
            pos,
            target,
            c.len() as int,
        ),
{
    let k = c.len() as int;
    let r = h;
    let q = (pos + k) % 4096;
    lemma_mod_basics(pos + k);
    lemma_mod_basics(r - pos);
    lemma_mod_basics(q - r);
    lemma_ring_after_read(ring, h, c, q);
    let d = ring_dist(r, pos);
    assert((q - r) % 4096 == (k - d) % 4096) by {
        lemma_mod_basics(k - d);
        let a = (pos + k) / 4096;
        let b = (r - pos) / 4096;
        assert(q - r == (k - d) + (-(a + b)) * 4096) by (nonlinear_arith)
            requires
                pos + k == a * 4096 + q,
                r - pos == b * 4096 + d,
        ;
        let c2 = (k - d) / 4096;
        assert(q - r == (c2 - a - b) * 4096 + (k - d) % 4096) by (nonlinear_arith)
            requires
                q - r == (k - d) + (-(a + b)) * 4096,
                k - d == c2 * 4096 + (k - d) % 4096,
        ;
        lemma_mod_by(q - r, c2 - a - b, (k - d) % 4096);
    }
    if 0 < d && d <= k {
        lemma_mod_by(k - d, 0, k - d);
    } else if d == 0 {
        lemma_mod_by(k - d, 0, k);
    } else {
        lemma_mod_by(k - d, -1, k - d + 4096);
    }
}

/// A match reproduces `target` exactly when `match_holds` says so.
pub proof fn lemma_copy_matches(ring: Seq<u8>, h: int, pos: int, target: Seq<u8>, len: nat)
    requires
        ring.len() == 4096,
        len < 4096,
        len <= target.len(),
    ensures
        copy_from(ring, h, pos, len).len() == len,
        (copy_from(ring, h, pos, len) =~= target.take(len as int)) <==> match_holds(
            ring,
            h,
            pos,
            target,
            len as int,
        ),
    decreases len,
{
    if len > 0 {
        let l1 = (len - 1) as nat;
        lemma_copy_matches(ring, h, pos, target, l1);
        let c = copy_from(ring, h, pos, l1);
        let full = copy_from(ring, h, pos, len);
        if c =~= target.take(l1 as int) {
            lemma_copy_read(ring, h, pos, c, target);
            if full =~= target.take(len as int) {
                assert forall|k: int| 0 <= k < len implies target[k] == #[trigger] expected_byte(
                    ring,
                    h,
                    pos,
                    target,
                    k,
                ) by {
                    if k < l1 {
                        assert(target.take(l1 as int)[k] == target[k]);
                    } else {
                        assert(full[k] == target.take(len as int)[k]);
                    }
                }
            }
            if match_holds(ring, h, pos, target, len as int) {
                assert(target[l1 as int] == expected_byte(ring, h, pos, target, l1 as int));
                assert(full =~= target.take(len as int));
            }
        } else {
            if match_holds(ring, h, pos, target, len as int) {
                assert(match_holds(ring, h, pos, target, l1 as int));
            }
            if full =~= target.take(len as int) {
                assert(c =~= target.take(l1 as int)) by {
                    assert forall|i: int| 0 <= i < l1 implies c[i] == target.take(l1 as int)[i] by {
                        assert(full[i] == c[i]);
                    }
                }
            }
        }
    }
}

/// A run stops at the cap or at the first byte not reproduced.
pub proof fn lemma_run_from(ring: Seq<u8>, r: int, pos: int, target: Seq<u8>, k: int, cap: int)
    requires
        0 <= k <= cap <= target.len(),
    ensures
        k <= run_from(ring, r, pos, target, k, cap) <= cap,
        forall|j: int|
            k <= j < run_from(ring, r, pos, target, k, cap) ==> target[j]
                == #[trigger] expected_byte(ring, r, pos, target, j),
        run_from(ring, r, pos, target, k, cap) < cap ==> target[run_from(
            ring,
            r,
            pos,
            target,
            k,
            cap,
        )] != expected_byte(ring, r, pos, target, run_from(ring, r, pos, target, k, cap)),
    decreases cap - k,
{
    if k < cap && target[k] == expected_byte(ring, r, pos, target, k) {
        lemma_run_from(ring, r, pos, target, k + 1, cap);
    }
}

/// `match_len_at` is the longest match: it holds, and no match of length at
/// most 18 from the same position is longer.
pub proof fn lemma_match_len_at(ring: Seq<u8>, r: int, pos: int, target: Seq<u8>)
    ensures
        0 <= match_len_at(ring, r, pos, target) <= match_cap(target),
        match_len_at(ring, r, pos, target) == 0 || match_len_at(ring, r, pos, target) >= 3,
        match_holds(ring, r, pos, target, match_len_at(ring, r, pos, target)),
        forall|l: int|
            3 <= l <= match_cap(target) && #[trigger] match_holds(ring, r, pos, target, l) ==> l
                <= match_len_at(ring, r, pos, target),
{
    let cap = match_cap(target);
    if cap >= 3 {
        lemma_run_from(ring, r, pos, target, 0, cap);
        let run = run_from(ring, r, pos, target, 0, cap);
        assert forall|l: int|
            3 <= l <= cap && #[trigger] match_holds(ring, r, pos, target, l) implies l
                <= match_len_at(ring, r, pos, target) by {
            if l > run {
                assert(target[run] == expected_byte(ring, r, pos, target, run));
            }
        }
    }
}

/// Every copy of length `len` has `len` bytes.
pub proof fn lemma_copy_len(ring: Seq<u8>, h: int, pos: int, len: nat)
    ensures
        copy_from(ring, h, pos, len).len() == len,
    decreases len,
{
    if len > 0 {
        lemma_copy_len(ring, h, pos, (len - 1) as nat);
    }
}

/// A token produces `token_size` bytes.
pub proof fn lemma_expand_len(ring: Seq<u8>, h: int, t: Token)
    ensures
        expand_at(ring, h, t).len() == token_size(t),
{
    if let Token::Match { pos, len } = t {
        lemma_copy_len(ring, h, pos as int, len as nat);
    }
}

/// Decoding one more token appends what that token produces.
pub proof fn lemma_decode_push(ts: Seq<Token>, t: Token)
    ensures
        decode(ts.push(t)) == decode(ts) + expand(t, decode(ts)),
{
    assert(ts.push(t).drop_last() =~= ts);
}

} // verus!
