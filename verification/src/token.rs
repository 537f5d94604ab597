//! Token utilities: a uniform token record, comparison of two token streams,
//! and replays of a token stream over its input.
use vstd::prelude::*;

use crate::frame::{frame, token_bytes};
use crate::greedy::{mirrors, token_size_exec};
use crate::model::{decode, head_of, lemma_expand_len, ring_after, ring_of, token_size, Token};
use crate::ring::{copy_match, new_ring, push_byte, INITIAL_RING_POS};

verus! {

/// A token as one flat record: a literal has `is_match == false`, its byte
/// in `lit`, `pos == 0` and `len == 1`; a match has `lit == 0`.
#[derive(Clone, Copy, Debug)]
pub struct UniToken {
    pub is_match: bool,
    pub lit: u8,
    pub pos: u16,
    pub len: u8,
}

impl UniToken {
    /// The token this record stands for.
    pub open spec fn token(self) -> Token {
        if self.is_match {
            Token::Match { pos: self.pos, len: self.len }
        } else {
            Token::Literal(self.lit)
        }
    }

    /// The record for a token.
    pub open spec fn of(t: Token) -> UniToken {
        match t {
            Token::Literal(b) => UniToken { is_match: false, lit: b, pos: 0, len: 1 },
            Token::Match { pos, len } => UniToken { is_match: true, lit: 0, pos, len },
        }
    }

    /// Whether two records have the same fields.
    pub open spec fn same(self, o: UniToken) -> bool {
        self.is_match == o.is_match && self.lit == o.lit && self.pos == o.pos && self.len == o.len
    }

    /// The record that stands for a missing token past the end of a stream.
    pub open spec fn missing() -> UniToken {
        UniToken { is_match: false, lit: 0xFE, pos: 0xFFFF, len: 0 }
    }
}

impl From<Token> for UniToken {
    fn from(t: Token) -> (u: UniToken) {
        match t {
            Token::Literal(b) => UniToken { is_match: false, lit: b, pos: 0, len: 1 },
            Token::Match { pos, len } => UniToken { is_match: true, lit: 0, pos, len },
        }
    }
}

impl vstd::std_specs::convert::FromSpecImpl<Token> for UniToken {
    open spec fn obeys_from_spec() -> bool {
        true
    }

    open spec fn from_spec(t: Token) -> UniToken {
        UniToken::of(t)
    }
}

/// Two records of the same token are the same, and conversely.
pub proof fn lemma_uni_same(a: Token, b: Token)
    ensures
        UniToken::of(a).same(UniToken::of(b)) <==> a == b,
        UniToken::of(a).token() == a,
{
}

/// "match" or "lit".
pub fn uni_kind_str(t: &UniToken) -> (s: &'static str)
    ensures
        t.is_match ==> s@ == "match"@,
        !t.is_match ==> s@ == "lit"@,
{
    if t.is_match {
        "match"
    } else {
        "lit"
    }
}

/// Number of bytes a token stands for.
pub fn token_len(t: &Token) -> (n: usize)
    ensures
        n == token_size(*t),
{
    token_size_exec(t)
}

/// Number of bytes a token stands for, as a `u32`.
pub fn token_step(t: &Token) -> (n: u32)
    ensures
        n == token_size(*t),
{
    match t {
        Token::Literal(_) => 1,
        Token::Match { len, .. } => *len as u32,
    }
}

/// Whether two tokens are equal.
pub fn token_eq(a: &Token, b: &Token) -> (res: bool)
    ensures
        res == (*a == *b),
{
    match (a, b) {
        (Token::Literal(x), Token::Literal(y)) => *x == *y,
        (Token::Match { pos: pa, len: la }, Token::Match { pos: pb, len: lb }) => *pa == *pb && *la
            == *lb,
        _ => false,
    }
}

/// The first index below both lengths at which two streams differ.
pub open spec fn first_mismatch(a: Seq<Token>, b: Seq<Token>, i: int) -> bool {
    &&& 0 <= i < a.len()
    &&& i < b.len()
    &&& a[i] != b[i]
    &&& forall|j: int| 0 <= j < i ==> a[j] == b[j]
}

/// Index of the first token at which two streams differ, counting a length
/// difference as a difference at the end of the shorter one.
pub fn first_divergence(leaf: &[Token], oku: &[Token]) -> (res: Option<usize>)
    ensures
        match res {
            Some(i) => first_mismatch(leaf@, oku@, i as int) || (leaf@.len() != oku@.len() && i
                == if leaf@.len() < oku@.len() {
                leaf@.len()
            } else {
                oku@.len()
            } && forall|j: int| 0 <= j < i ==> leaf@[j] == oku@[j]),
            None => leaf@ == oku@,
        },
{
    let n = if leaf.len() < oku.len() {
        leaf.len()
    } else {
        oku.len()
    };
    let mut i: usize = 0;
    while i < n
        invariant
            n <= leaf@.len(),
            n <= oku@.len(),
            n == leaf@.len() || n == oku@.len(),
            i <= n,
            forall|j: int| 0 <= j < i ==> leaf@[j] == oku@[j],
        decreases n - i,
    {
        if !token_eq(&leaf[i], &oku[i]) {
            return Some(i);
        }
        i += 1;
    }
    if leaf.len() != oku.len() {
        Some(n)
    } else {
        assert(leaf@ =~= oku@);
        None
    }
}

/// Index of the first token at which two streams differ within their common
/// length; none when one is a prefix of the other.
pub fn find_divergence(leaf_tokens: &[Token], sim_tokens: &[Token]) -> (res: Option<usize>)
    ensures
        match res {
            Some(i) => first_mismatch(leaf_tokens@, sim_tokens@, i as int),
            None => forall|j: int|
                0 <= j < leaf_tokens@.len() && j < sim_tokens@.len() ==> leaf_tokens@[j]
                    == sim_tokens@[j],
        },
{
    let n = if leaf_tokens.len() < sim_tokens.len() {
        leaf_tokens.len()
    } else {
        sim_tokens.len()
    };
    let mut i: usize = 0;
    while i < n
        invariant
            n <= leaf_tokens@.len(),
            n <= sim_tokens@.len(),
            n == leaf_tokens@.len() || n == sim_tokens@.len(),
            i <= n,
            forall|j: int| 0 <= j < i ==> leaf_tokens@[j] == sim_tokens@[j],
        decreases n - i,
    {
        if !token_eq(&leaf_tokens[i], &sim_tokens[i]) {
            return Some(i);
        }
        i += 1;
    }
    None
}

/// Replays one token on the ring as a decoder does, advancing the write head
/// `r` and the byte count `s`.
pub fn apply_token(ring: &mut Vec<u8>, r: &mut usize, s: &mut usize, input: &[u8], t: &UniToken)
    requires
        old(ring)@.len() == 4096,
        *old(r) < 4096,
        t.is_match ==> t.pos < 4096,
        *old(s) + token_size(t.token()) <= usize::MAX,
    ensures
        final(ring)@ == ring_after(
            old(ring)@,
            *old(r) as int,
            crate::model::expand_at(old(ring)@, *old(r) as int, t.token()),
        ),
        final(ring)@.len() == 4096,
        *final(r) as int == (*old(r) + token_size(t.token())) % 4096,
        *final(s) == *old(s) + token_size(t.token()),
{
    if t.is_match {
        copy_match(ring, r, t.pos as usize, t.len as usize);
        *s = *s + t.len as usize;
    } else {
        push_byte(ring, r, t.lit);
        *s = *s + 1;
    }
}

/// Total number of bytes a token sequence stands for.
pub open spec fn total_size(ts: Seq<Token>) -> nat
    decreases ts.len(),
{
    if ts.len() == 0 {
        0
    } else {
        total_size(ts.drop_last()) + token_size(ts.last())
    }
}

/// Decoding a token sequence emits `total_size` bytes.
pub proof fn lemma_decode_len(ts: Seq<Token>)
    ensures
        decode(ts).len() == total_size(ts),
    decreases ts.len(),
{
    if ts.len() > 0 {
        lemma_decode_len(ts.drop_last());
        lemma_expand_len(ring_of(decode(ts.drop_last())), head_of(decode(ts.drop_last()).len() as int), ts.last());
    }
}

/// Number of payload bytes before token `token_index` (its flag byte
/// included): the frame of the tokens before it, plus the flag byte that
/// opens its group when it starts one.
pub fn byte_offset_at_token(tokens: &[Token], token_index: usize) -> (offset: usize)
    requires
        3 * tokens@.len() + 1 <= usize::MAX,
    ensures
        offset == frame(tokens@.take(if token_index < tokens@.len() {
            token_index as int
        } else {
            tokens@.len() as int
        })).len() + if token_index % 8 == 0 {
            1int
        } else {
            0int
        },
{
    let n = if token_index < tokens.len() {
        token_index
    } else {
        tokens.len()
    };
    let mut offset: usize = 0;
    let mut i: usize = 0;
    while i < n
        invariant
            n <= tokens@.len(),
            3 * tokens@.len() + 1 <= usize::MAX,
            i <= n,
            offset == frame_len_upto(tokens@, i as int),
            offset <= 3 * i,
        decreases n - i,
    {
        if i % 8 == 0 {
            offset += 1;
        }
        match tokens[i] {
            Token::Literal(_) => offset += 1,
            Token::Match { .. } => offset += 2,
        }
        i += 1;
    }
    if token_index % 8 == 0 {
        offset += 1;
    }
    proof {
        lemma_frame_len_upto(tokens@, n as int);
    }
    offset
}

/// Stored size of a token in a payload (flag bits not counted).
pub open spec fn stored_size(t: Token) -> int {
    match t {
        Token::Literal(_) => 1,
        Token::Match { .. } => 2,
    }
}

/// Payload bytes taken by the first `i` tokens, counting a flag byte at the
/// start of every group of eight.
pub open spec fn frame_len_upto(ts: Seq<Token>, i: int) -> int
    decreases i,
{
    if i <= 0 {
        0
    } else {
        frame_len_upto(ts, i - 1) + stored_size(ts[i - 1]) + if (i - 1) % 8 == 0 {
            1int
        } else {
            0int
        }
    }
}

/// `frame_len_upto` is the length of the frame of the first `i` tokens.
pub proof fn lemma_frame_len_upto(ts: Seq<Token>, i: int)
    requires
        0 <= i <= ts.len(),
    ensures
        frame(ts.take(i)).len() == frame_len_upto(ts, i),
    decreases i,
{
    if i == 0 {
        assert(ts.take(0) =~= Seq::<Token>::empty());
    } else {
        lemma_frame_len_upto(ts, i - 1);
        let t = ts[i - 1];
        assert(token_bytes(t).len() == stored_size(t));
        vstd::arithmetic::div_mod::lemma_fundamental_div_mod(i - 1, 8);
        let k = (i - 1) - (i - 1) % 8;
        assert(k == 8 * ((i - 1) / 8));
        vstd::arithmetic::div_mod::lemma_mod_multiples_basic((i - 1) / 8, 8);
        assert(k % 8 == 0) by {
            assert((8 * ((i - 1) / 8)) % 8 == 0) by {
                vstd::arithmetic::mul::lemma_mul_is_commutative(8, (i - 1) / 8);
            }
        }
        let gi = ts.subrange(k, i);
        assert(ts.take(i) =~= ts.take(k) + gi);
        crate::frame::lemma_frame_append(ts.take(k), gi);
        assert(gi.drop_last() =~= ts.subrange(k, i - 1));
        assert(gi.last() == t);
        assert(crate::frame::group_body(gi) == crate::frame::group_body(ts.subrange(k, i - 1))
            + token_bytes(t));
        if k < i - 1 {
            let gp = ts.subrange(k, i - 1);
            assert(ts.take(i - 1) =~= ts.take(k) + gp);
            crate::frame::lemma_frame_append(ts.take(k), gp);
            assert(frame(ts.take(i)).len() == frame(ts.take(i - 1)).len() + stored_size(t));
        } else {
            assert(ts.take(i - 1) =~= ts.take(k));
            assert(ts.subrange(k, i - 1) =~= Seq::<Token>::empty());
            assert(crate::frame::group_body(ts.subrange(k, i - 1)) =~= Seq::<u8>::empty());
            assert(frame(ts.take(i)).len() == frame(ts.take(i - 1)).len() + 1 + stored_size(t));
        }
    }
}

/// Where two token streams first differ, with the state of a decoder of the
/// first stream just before that token.
pub struct DivergenceInfo {
    /// Index of the first differing token.
    pub token_index: usize,
    /// Payload offset of that token in the first stream's frame.
    pub byte_offset: usize,
    /// Bytes decoded before that token.
    pub s: usize,
    /// The decoder's ring before that token.
    pub ring: Vec<u8>,
    /// The decoder's write head before that token.
    pub ring_r: usize,
    /// The first stream's token there (`UniToken::missing()` past its end).
    pub leaf: UniToken,
    /// The second stream's token there (`UniToken::missing()` past its end).
    pub oku: UniToken,
}

/// The record of token `i` of a stream, or the missing-token record past its end.
pub open spec fn uni_at(ts: Seq<Token>, i: int) -> UniToken {
    if i < ts.len() {
        UniToken::of(ts[i])
    } else {
        UniToken::missing()
    }
}

/// The payload offset that `byte_offset_at_token` reports for token `i`.
pub open spec fn byte_offset_spec(ts: Seq<Token>, i: int) -> int {
    frame(ts.take(if i < ts.len() {
        i
    } else {
        ts.len() as int
    })).len() + if i % 8 == 0 {
        1int
    } else {
        0int
    }
}

/// Finds the first token at which `leaf_tokens` and `oku_tokens` differ
/// (a length difference counts as a difference at the end of the shorter),
/// replaying the common prefix on a decoder ring.
pub fn find_first_divergence(leaf_tokens: &[Token], oku_tokens: &[Token], input: &[u8]) -> (res:
    Option<DivergenceInfo>)
    requires
        forall|i: int|
            0 <= i < leaf_tokens@.len() ==> #[trigger] crate::model::token_wf(leaf_tokens@[i]),
        total_size(leaf_tokens@) <= usize::MAX,
        3 * leaf_tokens@.len() + 1 <= usize::MAX,
    ensures
        match res {
            None => leaf_tokens@ == oku_tokens@,
            Some(d) => {
                let i = d.token_index as int;
                let out = decode(leaf_tokens@.take(i));
                &&& (first_mismatch(leaf_tokens@, oku_tokens@, i) || (leaf_tokens@.len()
                    != oku_tokens@.len() && i == if leaf_tokens@.len() < oku_tokens@.len() {
                    leaf_tokens@.len() as int
                } else {
                    oku_tokens@.len() as int
                } && forall|j: int| 0 <= j < i ==> leaf_tokens@[j] == oku_tokens@[j]))
                &&& d.byte_offset == byte_offset_spec(leaf_tokens@, i)
                &&& d.s == out.len()
                &&& d.ring@ == ring_of(out)
                &&& d.ring_r == head_of(d.s as int)
                &&& d.leaf == uni_at(leaf_tokens@, i)
                &&& d.oku == uni_at(oku_tokens@, i)
            },
        },
{
    let mut ring = new_ring();
    let mut r: usize = INITIAL_RING_POS;
    let mut s_leaf: usize = 0;
    let n = if leaf_tokens.len() < oku_tokens.len() {
        leaf_tokens.len()
    } else {
        oku_tokens.len()
    };
    proof {
        crate::encode::lemma_mirrors_start();
        assert(leaf_tokens@.take(0) =~= Seq::<Token>::empty());
    }
    let mut i: usize = 0;
    while i < n
        invariant
            n <= leaf_tokens@.len(),
            n <= oku_tokens@.len(),
            n == leaf_tokens@.len() || n == oku_tokens@.len(),
            i <= n,
            forall|j: int| 0 <= j < i ==> leaf_tokens@[j] == oku_tokens@[j],
            forall|j: int|
                0 <= j < leaf_tokens@.len() ==> #[trigger] crate::model::token_wf(leaf_tokens@[j]),
            total_size(leaf_tokens@) <= usize::MAX,
            3 * leaf_tokens@.len() + 1 <= usize::MAX,
            mirrors(leaf_tokens@.take(i as int), ring@, r as int, s_leaf as int),
            ring@.len() == 4096,
            r < 4096,
        decreases n - i,
    {
        let lt: UniToken = UniToken::from(leaf_tokens[i]);
        let ot: UniToken = UniToken::from(oku_tokens[i]);
        let same = lt.is_match == ot.is_match && lt.lit == ot.lit && lt.pos == ot.pos && lt.len
            == ot.len;
        proof {
            assert(lt == UniToken::of(leaf_tokens@[i as int]));
            assert(ot == UniToken::of(oku_tokens@[i as int]));
            assert(crate::model::token_wf(leaf_tokens@[i as int]));
            lemma_uni_same(leaf_tokens@[i as int], oku_tokens@[i as int]);
        }
        if !same {
            let byte_offset = byte_offset_at_token(leaf_tokens, i);
            return Some(
                DivergenceInfo {
                    token_index: i,
                    byte_offset,
                    s: s_leaf,
                    ring,
                    ring_r: r,
                    leaf: lt,
                    oku: ot,
                },
            );
        }
        let ghost ts = leaf_tokens@.take(i as int);
        let ghost t = leaf_tokens@[i as int];
        proof {
            crate::greedy::lemma_mirrors_step(ts, t, ring@, r as int, s_leaf as int);
            assert(leaf_tokens@.take(i + 1) =~= ts.push(t));
            lemma_total_size_prefix(leaf_tokens@, i + 1);
            lemma_decode_len(ts.push(t));
        }
        let mut s = s_leaf;
        apply_token(&mut ring, &mut r, &mut s, input, &lt);
        s_leaf = s;
        i += 1;
    }
    if leaf_tokens.len() != oku_tokens.len() {
        let i = n;
        let byte_offset = byte_offset_at_token(leaf_tokens, i);
        if i < leaf_tokens.len() {
            let lt: UniToken = UniToken::from(leaf_tokens[i]);
            let dummy_ot = UniToken { is_match: false, lit: 0xFE, pos: 0xFFFF, len: 0 };
            return Some(
                DivergenceInfo {
                    token_index: i,
                    byte_offset,
                    s: s_leaf,
                    ring,
                    ring_r: r,
                    leaf: lt,
                    oku: dummy_ot,
                },
            );
        }
        let ot: UniToken = UniToken::from(oku_tokens[i]);
        let dummy_lt = UniToken { is_match: false, lit: 0xFE, pos: 0xFFFF, len: 0 };
        return Some(
            DivergenceInfo {
                token_index: i,
                byte_offset,
                s: s_leaf,
                ring,
                ring_r: r,
                leaf: dummy_lt,
                oku: ot,
            },
        );
    }
    assert(leaf_tokens@ =~= oku_tokens@);
    None
}

/// The size of a prefix is at most the size of the whole.
pub proof fn lemma_total_size_prefix(ts: Seq<Token>, i: int)
    requires
        0 <= i <= ts.len(),
    ensures
        total_size(ts.take(i)) <= total_size(ts),
    decreases ts.len() - i,
{
    if i < ts.len() {
        lemma_total_size_prefix(ts, i + 1);
        assert(ts.take(i + 1).drop_last() =~= ts.take(i));
    } else {
        assert(ts.take(i) =~= ts);
    }
}

} // verus!
