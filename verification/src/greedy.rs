//! Shared model of a greedy LZSS encoder: at each step the decoder that the
//! encoder mirrors has emitted `out`; the encoder looks for the longest match
//! of the remaining input on that decoder's ring.
use vstd::prelude::*;

use crate::model::{
    copy_from, decode, expand, expand_at, head_of, lemma_copy_matches, lemma_decode_push, lemma_expand_len,
    lemma_match_len_at, lemma_mod_add, lemma_mod_basics, lemma_ring_of_concat, lemma_ring_of_len,
    match_cap, match_holds, match_len_at, ring_after, ring_dist, ring_of, token_size, Token,
};
use crate::ring::{copy_match, max_match_at_pos, push_byte, RING_SIZE};

verus! {

/// The input still to be encoded once `out` has been emitted.
pub open spec fn target_of(input: Seq<u8>, out: Seq<u8>) -> Seq<u8> {
    input.skip(out.len() as int)
}

/// Longest match (0 when below 3 bytes) from `pos` for the rest of `input`,
/// on the ring of a decoder that has emitted `out`.
pub open spec fn mlen(input: Seq<u8>, out: Seq<u8>, pos: int) -> int {
    match_len_at(ring_of(out), head_of(out.len() as int), pos, target_of(input, out))
}

/// Whether a match `(pos, len)` reproduces the next `len` input bytes on the
/// ring of a decoder that has emitted `out`.
pub open spec fn legal(input: Seq<u8>, out: Seq<u8>, pos: int, len: int) -> bool {
    match_holds(ring_of(out), head_of(out.len() as int), pos, target_of(input, out), len)
}

/// Distance from the head of a decoder that has emitted `out` back to `pos`.
pub open spec fn pos_dist(out: Seq<u8>, pos: int) -> int {
    ring_dist(head_of(out.len() as int), pos)
}

/// The largest `mlen` over the positions `0..n`.
pub open spec fn max_mlen(input: Seq<u8>, out: Seq<u8>, n: int) -> int
    decreases n,
{
    if n <= 0 {
        0
    } else {
        let m = max_mlen(input, out, n - 1);
        let l = mlen(input, out, n - 1);
        if l > m {
            l
        } else {
            m
        }
    }
}

/// The longest match (0 when below 3 bytes) of `target` over the slots
/// `0..n` of `ring` with head `r`.
pub open spec fn ring_best(ring: Seq<u8>, r: int, target: Seq<u8>, n: int) -> int
    decreases n,
{
    if n <= 0 {
        0
    } else {
        let m = ring_best(ring, r, target, n - 1);
        let l = match_len_at(ring, r, n - 1, target);
        if l > m {
            l
        } else {
            m
        }
    }
}

/// On a decoder's own ring, `ring_best` is `max_mlen`.
pub proof fn lemma_ring_best_mlen(input: Seq<u8>, out: Seq<u8>, n: int)
    ensures
        ring_best(ring_of(out), head_of(out.len() as int), target_of(input, out), n) == max_mlen(input, out, n),
    decreases n,
{
    if n > 0 {
        lemma_ring_best_mlen(input, out, n - 1);
    }
}

/// Length of the longest match over the whole ring (0 when below 3 bytes).
pub open spec fn best_len(input: Seq<u8>, out: Seq<u8>) -> int {
    max_mlen(input, out, 4096)
}

/// A match that the encoder takes is a longest match, and nothing shorter
/// than 3 bytes counts as one.
pub open spec fn is_best_match(input: Seq<u8>, out: Seq<u8>, pos: int) -> bool {
    0 <= pos < 4096 && best_len(input, out) >= 3 && legal(input, out, pos, best_len(input, out))
}

/// The state an encoder keeps in step with its own output: the ring and head
/// of a decoder of `tokens`, and the number of bytes that decoder has emitted.
pub open spec fn mirrors(tokens: Seq<Token>, ring: Seq<u8>, r: int, s: int) -> bool {
    &&& ring == ring_of(decode(tokens))
    &&& s == decode(tokens).len()
    &&& r == head_of(s)
}

/// `max_mlen` is the maximum and is reached.
pub proof fn lemma_max_mlen(input: Seq<u8>, out: Seq<u8>, n: int)
    requires
        0 <= n <= 4096,
    ensures
        0 <= max_mlen(input, out, n) <= match_cap(target_of(input, out)),
        max_mlen(input, out, n) == 0 || max_mlen(input, out, n) >= 3,
        forall|p: int| 0 <= p < n ==> #[trigger] mlen(input, out, p) <= max_mlen(input, out, n),
        max_mlen(input, out, n) > 0 ==> exists|p: int|
            0 <= p < n && #[trigger] mlen(input, out, p) == max_mlen(input, out, n),
    decreases n,
{
    if n > 0 {
        lemma_max_mlen(input, out, n - 1);
        lemma_match_len_at(
            ring_of(out),
            head_of(out.len() as int),
            n - 1,
            target_of(input, out),
        );
        if mlen(input, out, n - 1) <= max_mlen(input, out, n - 1) && max_mlen(input, out, n) > 0 {
            let p = choose|p: int| 0 <= p < n - 1 && #[trigger] mlen(input, out, p) == max_mlen(input, out, n - 1);
            assert(mlen(input, out, p) == max_mlen(input, out, n));
        }
    }
}

/// A position reaches the best length exactly when a match of that length
/// from it holds; the best length is the longest match anywhere.
pub proof fn lemma_best_len(input: Seq<u8>, out: Seq<u8>)
    ensures
        0 <= best_len(input, out) <= match_cap(target_of(input, out)),
        best_len(input, out) == 0 || best_len(input, out) >= 3,
        forall|p: int| 0 <= p < 4096 ==> #[trigger] mlen(input, out, p) <= best_len(input, out),
        best_len(input, out) > 0 ==> exists|p: int|
            0 <= p < 4096 && #[trigger] mlen(input, out, p) == best_len(input, out),
        best_len(input, out) >= 3 ==> forall|p: int|
            0 <= p < 4096 ==> (#[trigger] legal(input, out, p, best_len(input, out)) <==> mlen(
                input,
                out,
                p,
            ) == best_len(input, out)),
        forall|p: int, l: int|
            0 <= p < 4096 && 3 <= l <= match_cap(target_of(input, out)) && #[trigger] legal(
                input,
                out,
                p,
                l,
            ) ==> l <= best_len(input, out),
{
    lemma_max_mlen(input, out, 4096);
    let b = best_len(input, out);
    assert forall|p: int| 0 <= p < 4096 && b >= 3 implies (#[trigger] legal(input, out, p, b) <==> mlen(
        input,
        out,
        p,
    ) == b) by {
        lemma_match_len_at(ring_of(out), head_of(out.len() as int), p, target_of(input, out));
    }
    assert forall|p: int, l: int|
        0 <= p < 4096 && 3 <= l <= match_cap(target_of(input, out)) && #[trigger] legal(
            input,
            out,
            p,
            l,
        ) implies l <= b by {
        lemma_match_len_at(ring_of(out), head_of(out.len() as int), p, target_of(input, out));
        assert(mlen(input, out, p) <= b);
    }
}

/// Length of the longest match over the whole ring for `input[s..]`.
pub fn longest_match_len(ring: &[u8], r: usize, input: &[u8], s: usize) -> (best: usize)
    requires
        ring@.len() == 4096,
        r < 4096,
        s <= input@.len(),
    ensures
        best as int == ring_best(ring@, r as int, input@.skip(s as int), 4096),
        forall|out: Seq<u8>|
            out.len() == s && ring@ == ring_of(out) && r == head_of(s as int) ==> best as int
                == #[trigger] best_len(input@, out),
        best <= 18,
{
    let mut best: usize = 0;
    let mut pos: usize = 0;
    while pos < RING_SIZE
        invariant
            ring@.len() == 4096,
            r < 4096,
            s <= input@.len(),
            pos <= 4096,
            best <= 18,
            best as int == ring_best(ring@, r as int, input@.skip(s as int), pos as int),
        decreases 4096 - pos,
    {
        let l = max_match_at_pos(ring, r, pos, input, s);
        proof {
            lemma_match_len_at(ring@, r as int, pos as int, input@.skip(s as int));
        }
        if l > best {
            best = l;
        }
        pos += 1;
    }
    proof {
        assert forall|out: Seq<u8>|
            out.len() == s && ring@ == ring_of(out) && r == head_of(s as int) implies best as int
                == #[trigger] best_len(input@, out) by {
            lemma_ring_best_mlen(input@, out, 4096);
        }
    }
    best
}

/// Replaying a token keeps a ring in step with the tokens decoded so far.
pub proof fn lemma_mirrors_step(ts: Seq<Token>, t: Token, ring: Seq<u8>, r: int, s: int)
    requires
        mirrors(ts, ring, r, s),
    ensures
        mirrors(
            ts.push(t),
            ring_after(ring, r, expand_at(ring, r, t)),
            (r + token_size(t)) % 4096,
            s + token_size(t),
        ),
        decode(ts.push(t)) == decode(ts) + expand_at(ring, r, t),
        expand_at(ring, r, t).len() == token_size(t),
{
    let out = decode(ts);
    lemma_ring_of_len(out);
    lemma_expand_len(ring, r, t);
    lemma_ring_of_concat(out, expand(t, out));
    lemma_decode_push(ts, t);
    lemma_mod_add(0xfee + s, token_size(t) as int);
}

/// Appends a token to an encoder's output and replays it on the encoder's
/// ring, keeping the ring, head and byte count in step with the output.
pub fn emit_token(
    tokens: &mut Vec<Token>,
    ring: &mut Vec<u8>,
    r: &mut usize,
    s: &mut usize,
    t: Token,
)
    requires
        mirrors(old(tokens)@, old(ring)@, *old(r) as int, *old(s) as int),
        t matches Token::Match { pos, .. } ==> pos < 4096,
        *old(s) + token_size(t) <= usize::MAX,
    ensures
        final(tokens)@ == old(tokens)@.push(t),
        mirrors(final(tokens)@, final(ring)@, *final(r) as int, *final(s) as int),
        decode(final(tokens)@) == decode(old(tokens)@) + expand(t, decode(old(tokens)@)),
        *final(s) == *old(s) + token_size(t),
        final(ring)@.len() == 4096,
        *final(r) < 4096,
{
    let ghost out = decode(tokens@);
    proof {
        lemma_ring_of_len(out);
        lemma_mod_basics(0xfee + out.len() as int);
        lemma_expand_len(ring@, *r as int, t);
        lemma_ring_of_concat(out, expand(t, out));
        lemma_decode_push(tokens@, t);
        lemma_mod_add(0xfee + *s as int, token_size(t) as int);
    }
    match t {
        Token::Literal(b) => {
            push_byte(ring, r, b);
        },
        Token::Match { pos, len } => {
            copy_match(ring, r, pos as usize, len as usize);
        },
    }
    tokens.push(t);
    *s = *s + token_size_exec(&t);
}

/// Number of bytes a token stands for.
pub fn token_size_exec(t: &Token) -> (n: usize)
    ensures
        n == token_size(*t),
{
    match t {
        Token::Literal(_) => 1,
        Token::Match { len, .. } => *len as usize,
    }
}

/// A legal match continues the input: if the output so far is the input's
/// prefix, so is the output after the match.
pub proof fn lemma_legal_extends(input: Seq<u8>, out: Seq<u8>, pos: int, len: int)
    requires
        out == input.take(out.len() as int),
        out.len() <= input.len(),
        0 <= len < 4096,
        legal(input, out, pos, len),
    ensures
        out + copy_from(ring_of(out), head_of(out.len() as int), pos, len as nat) == input.take(
            out.len() + len,
        ),
        len <= input.len() - out.len(),
{
    let s = out.len() as int;
    lemma_ring_of_len(out);
    lemma_copy_matches(ring_of(out), head_of(s), pos, target_of(input, out), len as nat);
    assert(out + target_of(input, out).take(len) =~= input.take(s + len));
}

} // verus!
