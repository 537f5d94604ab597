//! Decoding: tokens back to bytes, and an LF2 payload to its tokens and
//! pixel bytes.
use vstd::prelude::*;

use crate::frame::{flag_bit, match_token, parse, parse_from, parse_payload};
use crate::greedy::{lemma_mirrors_step, mirrors};
use crate::model::{copy_from, decode, lemma_copy_len, lemma_mod_add, lemma_mod_by, lemma_ring_after_len, ring_after, token_wf, Token};
use crate::ring::{lemma_mask, new_ring, push_byte, INITIAL_RING_POS};


verus! {

/// Replays a match like `copy_match`, also appending the copied bytes to `out`.
fn copy_match_out(ring: &mut Vec<u8>, r: &mut usize, pos: usize, len: usize, out: &mut Vec<u8>)
    requires
        old(ring)@.len() == 4096,
        *old(r) < 4096,
        pos < 4096,
    ensures
        final(ring)@ == ring_after(
            old(ring)@,
            *old(r) as int,
            copy_from(old(ring)@, *old(r) as int, pos as int, len as nat),
        ),
        final(ring)@.len() == 4096,
        *final(r) as int == (*old(r) + len) % 4096,
        final(out)@ == old(out)@ + copy_from(old(ring)@, *old(r) as int, pos as int, len as nat),
{
    let ghost ring0 = ring@;
    let ghost r0 = *r as int;
    let ghost out0 = out@;
    let mut copy_pos = pos;
    let mut j: usize = 0;
    proof {
        lemma_mod_by(r0, 0, r0);
        lemma_mod_by(pos as int, 0, pos as int);
        assert(out0 + copy_from(ring0, r0, pos as int, 0) =~= out0);
    }
    while j < len
        invariant
            ring0.len() == 4096,
            0 <= r0 < 4096,
            pos < 4096,
            j <= len,
            ring@ == ring_after(ring0, r0, copy_from(ring0, r0, pos as int, j as nat)),
            ring@.len() == 4096,
            out@ == out0 + copy_from(ring0, r0, pos as int, j as nat),
            *r < 4096,
            *r as int == (r0 + j) % 4096,
            copy_pos < 4096,
            copy_pos as int == (pos + j) % 4096,
        decreases len - j,
    {
        let ghost c = copy_from(ring0, r0, pos as int, j as nat);
        let pixel = ring[copy_pos];
        proof {
            lemma_copy_len(ring0, r0, pos as int, j as nat);
            let c1 = copy_from(ring0, r0, pos as int, (j + 1) as nat);
            assert(c1 == c.push(pixel));
            assert(c1.drop_last() =~= c);
            assert(out0 + c1 =~= (out0 + c).push(pixel));
            lemma_mod_add(r0 + j, 1);
            lemma_mod_add(pos + j, 1);
            lemma_mask((copy_pos + 1) as usize);
            lemma_mask((*r + 1) as usize);
        }
        ring.set(*r, pixel);
        out.push(pixel);
        *r = (*r + 1) & 0x0fff;
        copy_pos = (copy_pos + 1) & 0x0fff;
        j += 1;
    }
    proof {
        lemma_ring_after_len(ring0, r0, copy_from(ring0, r0, pos as int, len as nat));
    }
}

/// Decodes one token, appending its bytes to `out`.
fn decode_step(
    ring: &mut Vec<u8>,
    r: &mut usize,
    out: &mut Vec<u8>,
    t: Token,
    Ghost(ts): Ghost<Seq<Token>>,
)
    requires
        mirrors(ts, old(ring)@, *old(r) as int, old(out)@.len() as int),
        old(out)@ == decode(ts),
        token_wf(t),
    ensures
        mirrors(ts.push(t), final(ring)@, *final(r) as int, final(out)@.len() as int),
        final(out)@ == decode(ts.push(t)),
        final(ring)@.len() == 4096,
        *final(r) < 4096,
{
    proof {
        crate::model::lemma_ring_of_len(decode(ts));
        crate::model::lemma_mod_basics(0xfee + decode(ts).len() as int);
        lemma_mirrors_step(ts, t, ring@, *r as int, out@.len() as int);
    }
    match t {
        Token::Literal(b) => {
            push_byte(ring, r, b);
            out.push(b);
        },
        Token::Match { pos, len } => {
            copy_match_out(ring, r, pos as usize, len as usize, out);
        },
    }
}

/// Decodes a token sequence into the bytes it stands for.
pub fn decode_tokens(tokens: &[Token]) -> (out: Vec<u8>)
    requires
        forall|i: int| 0 <= i < tokens@.len() ==> #[trigger] token_wf(tokens@[i]),
    ensures
        out@ == decode(tokens@),
{
    let mut ring = new_ring();
    let mut r: usize = INITIAL_RING_POS;
    let mut out: Vec<u8> = Vec::new();
    let n = tokens.len();
    let mut i: usize = 0;
    proof {
        crate::encode::lemma_mirrors_start();
        assert(tokens@.take(0) =~= Seq::<Token>::empty());
    }
    while i < n
        invariant
            n == tokens@.len(),
            i <= n,
            forall|j: int| 0 <= j < tokens@.len() ==> #[trigger] token_wf(tokens@[j]),
            mirrors(tokens@.take(i as int), ring@, r as int, out@.len() as int),
            out@ == decode(tokens@.take(i as int)),
            ring@.len() == 4096,
            r < 4096,
        decreases n - i,
    {
        let ghost ts = tokens@.take(i as int);
        assert(token_wf(tokens@[i as int]));
        decode_step(&mut ring, &mut r, &mut out, tokens[i], Ghost(ts));
        assert(tokens@.take(i + 1) =~= ts.push(tokens@[i as int]));
        i += 1;
    }
    assert(tokens@.take(n as int) =~= tokens@);
    out
}

/// Every token read from a payload is well formed.
pub proof fn lemma_parse_from_wf(bytes: Seq<u8>, i: int, flag: u8, bit: int, ts: Seq<Token>)
    requires
        parse_from(bytes, i, flag, bit) == Some(ts),
    ensures
        forall|k: int| 0 <= k < ts.len() ==> #[trigger] token_wf(ts[k]),
    decreases bytes.len() - i,
{
    if i < 0 || i >= bytes.len() {
    } else if bit >= 8 || bit < 0 {
        lemma_parse_from_wf(bytes, i + 1, bytes[i] ^ 0xff, 0, ts);
    } else if flag & flag_bit(bit) != 0 {
        let rest = parse_from(bytes, i + 1, flag, bit + 1).unwrap();
        lemma_parse_from_wf(bytes, i + 1, flag, bit + 1, rest);
        assert forall|k: int| 0 <= k < ts.len() implies #[trigger] token_wf(ts[k]) by {
            if k > 0 {
                assert(ts[k] == rest[k - 1]);
            }
        }
    } else if i + 1 >= bytes.len() {
    } else {
        let rest = parse_from(bytes, i + 2, flag, bit + 1).unwrap();
        lemma_parse_from_wf(bytes, i + 2, flag, bit + 1, rest);
        let upper = bytes[i] ^ 0xff;
        let lower = bytes[i + 1] ^ 0xff;
        lemma_match_token_wf(upper, lower);
        assert forall|k: int| 0 <= k < ts.len() implies #[trigger] token_wf(ts[k]) by {
            if k > 0 {
                assert(ts[k] == rest[k - 1]);
            }
        }
    }
}

/// A stored match always names a ring position and a length of 3 to 18.
pub proof fn lemma_match_token_wf(upper: u8, lower: u8)
    ensures
        token_wf(match_token(upper, lower)),
{
    assert(((upper >> 4u8) as u16) | ((lower as u16) << 4u16) < 4096) by (bit_vector);
    assert((upper & 0x0f) + 3 <= 18) by (bit_vector);
    assert((upper & 0x0f) + 3 >= 3) by (bit_vector);
}

/// Why a payload cannot be decoded to a full image.
#[derive(Clone, Copy, Debug, PartialEq, Eq, Structural)]
pub enum DecodeError {
    /// The payload ends inside a match.
    Malformed,
    /// The payload's tokens stand for fewer bytes than the image has pixels.
    TooShort,
}

/// The tokens of a payload up to the one that completes the image, and the
/// image's pixel bytes.
pub struct Decompressed {
    pub tokens: Vec<Token>,
    pub ring_input: Vec<u8>,
}

/// The tokens of `ts` needed to produce `total` bytes: the shortest prefix
/// whose decoding has at least `total` bytes.
pub open spec fn needed_prefix(ts: Seq<Token>, total: int, k: int) -> bool {
    &&& 0 <= k <= ts.len()
    &&& decode(ts.take(k)).len() >= total
    &&& (k == 0 || decode(ts.take(k - 1)).len() < total)
}

/// Decodes an LF2 payload for a `width` x `height` image: its tokens up to
/// the one that completes the image, and the first `width * height` decoded
/// bytes.
pub fn decompress_to_tokens(payload: &[u8], width: u16, height: u16) -> (res: Result<
    Decompressed,
    DecodeError,
>)
    ensures
        match res {
            Err(DecodeError::Malformed) => parse(payload@) is None,
            Err(DecodeError::TooShort) => parse(payload@) matches Some(ts) && decode(ts).len()
                < width * height,
            Ok(d) => parse(payload@) matches Some(ts) && needed_prefix(
                ts,
                width * height,
                d.tokens@.len() as int,
            ) && d.tokens@ == ts.take(d.tokens@.len() as int) && d.ring_input@ == decode(
                d.tokens@,
            ).take(width * height),
        },
        res matches Ok(d) ==> forall|k: int|
            0 <= k < d.tokens@.len() ==> #[trigger] token_wf(d.tokens@[k]),
{
    let mut ts = match parse_payload(payload) {
        None => {
            return Err(DecodeError::Malformed);
        },
        Some(t) => t,
    };
    proof {
        assert(parse_from(payload@, 0, 0, 8) == Some(ts@));
        lemma_parse_from_wf(payload@, 0, 0, 8, ts@);
        assert(forall|j: int| 0 <= j < ts@.len() ==> #[trigger] token_wf(ts@[j]));
        assert((width as int) * (height as int) <= 0xffff * 0xffff) by (nonlinear_arith)
            requires
                width <= 0xffff,
                height <= 0xffff,
        ;
    }
    let total = width as usize * height as usize;
    let mut ring = new_ring();
    let mut r: usize = INITIAL_RING_POS;
    let mut out: Vec<u8> = Vec::new();
    let n = ts.len();
    let mut k: usize = 0;
    proof {
        crate::encode::lemma_mirrors_start();
        assert(ts@.take(0) =~= Seq::<Token>::empty());
    }
    while out.len() < total && k < n
        invariant
            n == ts@.len(),
            k <= n,
            total == width * height,
            forall|j: int| 0 <= j < ts@.len() ==> #[trigger] token_wf(ts@[j]),
            mirrors(ts@.take(k as int), ring@, r as int, out@.len() as int),
            out@ == decode(ts@.take(k as int)),
            ring@.len() == 4096,
            r < 4096,
            k == 0 || decode(ts@.take(k - 1)).len() < total,
        decreases n - k,
    {
        let ghost prefix = ts@.take(k as int);
        assert(token_wf(ts@[k as int]));
        decode_step(&mut ring, &mut r, &mut out, ts[k], Ghost(prefix));
        assert(ts@.take(k + 1) =~= prefix.push(ts@[k as int]));
        assert(ts@.take(k + 1 - 1) =~= prefix);
        k += 1;
    }
    if out.len() < total {
        assert(ts@.take(k as int) =~= ts@);
        return Err(DecodeError::TooShort);
    }
    let ghost all = ts@;
    ts.truncate(k);
    out.truncate(total);
    assert(ts@ == all.take(k as int));
    assert forall|j: int| 0 <= j < ts@.len() implies #[trigger] token_wf(ts@[j]) by {
        assert(ts@[j] == all[j]);
    }
    Ok(Decompressed { tokens: ts, ring_input: out })
}

} // verus!
