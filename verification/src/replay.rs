//! Replays of a token stream that write the input bytes (not the decoded
//! ones) into a ring, stopping at the end of the input: the ring before a
//! given token, the ring before every token, and which token last wrote
//! each slot.
use vstd::prelude::*;

use crate::gamma::advance;
use crate::greedy::token_size_exec;
use crate::model::{head_of, lemma_mod_add, lemma_mod_basics, lemma_mod_by, ring_of, token_size, Token};
use crate::ring::{new_ring, push_byte};
use crate::token::total_size;

verus! {

/// Input bytes consumed after the first `k` tokens: their total size, at
/// most the input length.
pub open spec fn replay_pos(ts: Seq<Token>, input_len: int, k: int) -> int {
    let t = total_size(ts.take(k)) as int;
    if t < input_len {
        t
    } else {
        input_len
    }
}

/// Advancing over one more token.
proof fn lemma_replay_step(ts: Seq<Token>, input_len: int, k: int)
    requires
        0 <= k < ts.len(),
        0 <= input_len,
    ensures
        replay_pos(ts, input_len, k + 1) == (if replay_pos(ts, input_len, k) + token_size(ts[k])
            <= input_len {
            replay_pos(ts, input_len, k) + token_size(ts[k])
        } else {
            input_len
        }),
{
    assert(ts.take(k + 1).drop_last() =~= ts.take(k));
    assert(ts.take(k + 1).last() == ts[k]);
}

/// The ring, head and input position after replaying the first
/// `min(stop_idx, tokens.len())` tokens.
pub fn replay_leaf_ring(tokens: &[Token], input: &[u8], stop_idx: usize) -> (res: (Vec<u8>, usize, usize))
    ensures
        ({
            let m = if stop_idx < tokens@.len() {
                stop_idx as int
            } else {
                tokens@.len() as int
            };
            let s = replay_pos(tokens@, input@.len() as int, m);
            &&& res.2 == s
            &&& res.0@ == ring_of(input@.take(s))
            &&& res.1 == head_of(s)
        }),
{
    let mut ring = new_ring();
    let mut r: usize = 0x0fee;
    let mut s: usize = 0;
    let m = if stop_idx < tokens.len() {
        stop_idx
    } else {
        tokens.len()
    };
    proof {
        assert(input@.take(0) =~= Seq::<u8>::empty());
        assert(tokens@.take(0) =~= Seq::<Token>::empty());
        lemma_mod_by(0xfee, 0, 0xfee);
    }
    let mut i: usize = 0;
    while i < m
        invariant
            m <= tokens@.len(),
            i <= m,
            s as int == replay_pos(tokens@, input@.len() as int, i as int),
            s <= input@.len(),
            ring@ == ring_of(input@.take(s as int)),
            r as int == head_of(s as int),
        decreases m - i,
    {
        proof {
            lemma_replay_step(tokens@, input@.len() as int, i as int);
        }
        advance(&mut ring, &mut r, &mut s, input, token_size_exec(&tokens[i]));
        i += 1;
    }
    (ring, r, s)
}

/// The ring, head and input position before each token, and after the last.
pub fn replay_ring(tokens: &[Token], input: &[u8]) -> (out: Vec<(Vec<u8>, usize, usize)>)
    ensures
        out@.len() == tokens@.len() + 1,
        forall|k: int|
            0 <= k < out@.len() ==> {
                let s = replay_pos(tokens@, input@.len() as int, k);
                &&& (#[trigger] out@[k]).2 == s
                &&& out@[k].0@ == ring_of(input@.take(s))
                &&& out@[k].1 == head_of(s)
            },
{
    let mut out: Vec<(Vec<u8>, usize, usize)> = Vec::new();
    let mut ring = new_ring();
    let mut r: usize = 0x0fee;
    let mut s: usize = 0;
    proof {
        assert(input@.take(0) =~= Seq::<u8>::empty());
        assert(tokens@.take(0) =~= Seq::<Token>::empty());
        lemma_mod_by(0xfee, 0, 0xfee);
    }
    let n = tokens.len();
    let mut i: usize = 0;
    while i < n
        invariant
            n == tokens@.len(),
            i <= n,
            out@.len() == i,
            forall|k: int|
                0 <= k < i ==> {
                    let sk = replay_pos(tokens@, input@.len() as int, k);
                    &&& (#[trigger] out@[k]).2 == sk
                    &&& out@[k].0@ == ring_of(input@.take(sk))
                    &&& out@[k].1 == head_of(sk)
                },
            s as int == replay_pos(tokens@, input@.len() as int, i as int),
            s <= input@.len(),
            ring@ == ring_of(input@.take(s as int)),
            r as int == head_of(s as int),
        decreases n - i,
    {
        out.push((copy_ring(&ring), r, s));
        proof {
            lemma_replay_step(tokens@, input@.len() as int, i as int);
        }
        advance(&mut ring, &mut r, &mut s, input, token_size_exec(&tokens[i]));
        i += 1;
    }
    out.push((copy_ring(&ring), r, s));
    out
}

/// A copy of a ring.
fn copy_ring(ring: &Vec<u8>) -> (c: Vec<u8>)
    ensures
        c@ == ring@,
{
    let mut c: Vec<u8> = Vec::new();
    let mut i: usize = 0;
    while i < ring.len()
        invariant
            i <= ring@.len(),
            c@ == ring@.take(i as int),
        decreases ring@.len() - i,
    {
        c.push(ring[i]);
        i += 1;
        assert(c@ =~= ring@.take(i as int));
    }
    assert(ring@.take(ring@.len() as int) =~= ring@);
    c
}

/// Which token last wrote a ring slot.
#[derive(Clone, Copy, Debug, PartialEq, Eq, Structural)]
pub enum WriteOrigin {
    /// Never written: still the initial space.
    Initial,
    /// Written by the literal at this token index.
    Literal(usize),
    /// Written by the match at this token index.
    Match(usize),
}

/// The tag of token `i`.
pub open spec fn origin_tag(t: Token, i: int) -> WriteOrigin {
    match t {
        Token::Literal(_) => WriteOrigin::Literal(i as usize),
        Token::Match { .. } => WriteOrigin::Match(i as usize),
    }
}

/// For every byte the first `k` tokens stand for, the tag of its token.
pub open spec fn origin_bytes(ts: Seq<Token>, k: int) -> Seq<WriteOrigin>
    decreases k,
{
    if k <= 0 {
        Seq::empty()
    } else {
        origin_bytes(ts, k - 1) + Seq::new(token_size(ts[k - 1]), |j: int| origin_tag(ts[k - 1], k - 1))
    }
}

/// The slots after writing `vals` one after another from slot `h0` on.
pub open spec fn slots_after(init: Seq<WriteOrigin>, h0: int, vals: Seq<WriteOrigin>) -> Seq<WriteOrigin>
    decreases vals.len(),
{
    if vals.len() == 0 {
        init
    } else {
        slots_after(init, h0, vals.drop_last()).update((h0 + vals.len() - 1) % 4096, vals.last())
    }
}

/// No slot written yet.
pub open spec fn initial_origins() -> Seq<WriteOrigin> {
    Seq::new(4096, |i: int| WriteOrigin::Initial)
}

proof fn lemma_origin_bytes_len(ts: Seq<Token>, k: int)
    requires
        0 <= k <= ts.len(),
    ensures
        origin_bytes(ts, k).len() == total_size(ts.take(k)),
    decreases k,
{
    if k > 0 {
        lemma_origin_bytes_len(ts, k - 1);
        assert(ts.take(k).drop_last() =~= ts.take(k - 1));
        assert(ts.take(k).last() == ts[k - 1]);
    }
}

proof fn lemma_slots_len(init: Seq<WriteOrigin>, h0: int, vals: Seq<WriteOrigin>)
    requires
        init.len() == 4096,
    ensures
        slots_after(init, h0, vals).len() == 4096,
    decreases vals.len(),
{
    if vals.len() > 0 {
        lemma_slots_len(init, h0, vals.drop_last());
        lemma_mod_basics(h0 + vals.len() - 1);
    }
}

/// Like `replay_leaf_ring`, also reporting for each slot the token that last
/// wrote it.
pub fn replay_with_origin(tokens: &[Token], input: &[u8], stop_idx: usize) -> (res: (
    Vec<u8>,
    Vec<WriteOrigin>,
    usize,
    usize,
))
    ensures
        ({
            let m = if stop_idx < tokens@.len() {
                stop_idx as int
            } else {
                tokens@.len() as int
            };
            let s = replay_pos(tokens@, input@.len() as int, m);
            &&& res.3 == s
            &&& res.0@ == ring_of(input@.take(s))
            &&& res.2 == head_of(s)
            &&& res.1@ == slots_after(initial_origins(), 0xfee, origin_bytes(tokens@, m).take(s))
        }),
{
    let mut ring = new_ring();
    let mut origin: Vec<WriteOrigin> = Vec::new();
    let mut q: usize = 0;
    while q < 4096
        invariant
            q <= 4096,
            origin@.len() == q,
            forall|j: int| 0 <= j < q ==> origin@[j] == WriteOrigin::Initial,
        decreases 4096 - q,
    {
        origin.push(WriteOrigin::Initial);
        q += 1;
    }
    assert(origin@ =~= initial_origins());
    let mut r: usize = 0x0fee;
    let mut s: usize = 0;
    let m = if stop_idx < tokens.len() {
        stop_idx
    } else {
        tokens.len()
    };
    let n_in = input.len();
    proof {
        assert(input@.take(0) =~= Seq::<u8>::empty());
        assert(tokens@.take(0) =~= Seq::<Token>::empty());
        assert(origin_bytes(tokens@, 0).take(0) =~= Seq::<WriteOrigin>::empty());
        lemma_mod_by(0xfee, 0, 0xfee);
    }
    let mut i: usize = 0;
    while i < m
        invariant
            m <= tokens@.len(),
            n_in == input@.len(),
            i <= m,
            s as int == replay_pos(tokens@, input@.len() as int, i as int),
            s <= input@.len(),
            ring@ == ring_of(input@.take(s as int)),
            r as int == head_of(s as int),
            origin@ == slots_after(initial_origins(), 0xfee, origin_bytes(tokens@, i as int).take(s as int)),
        decreases m - i,
    {
        let t = tokens[i];
        let l = token_size_exec(&t);
        let tag = match t {
            Token::Literal(_) => WriteOrigin::Literal(i),
            Token::Match { .. } => WriteOrigin::Match(i),
        };
        let ghost ob = origin_bytes(tokens@, i + 1);
        let ghost s0 = s as int;
        proof {
            lemma_replay_step(tokens@, input@.len() as int, i as int);
            lemma_origin_bytes_len(tokens@, i as int);
            lemma_origin_bytes_len(tokens@, i + 1);
            assert(ob.take(s0) =~= origin_bytes(tokens@, i as int).take(s0));
        }
        let mut j: usize = 0;
        while j < l && s < n_in
            invariant
                n_in == input@.len(),
                s <= input@.len(),
                j <= l,
                l == token_size(t),
                s == s0 + j,
                s0 <= total_size(tokens@.take(i as int)),
                s0 == total_size(tokens@.take(i as int)) || s0 == input@.len(),
                ob == origin_bytes(tokens@, i + 1),
                ob.len() == total_size(tokens@.take(i as int)) + l,
                ob == origin_bytes(tokens@, i as int) + Seq::new(
                    token_size(t),
                    |k: int| origin_tag(t, i as int),
                ),
                origin_bytes(tokens@, i as int).len() == total_size(tokens@.take(i as int)),
                tag == origin_tag(t, i as int),
                t == tokens@[i as int],
                ring@ == ring_of(input@.take(s as int)),
                r as int == head_of(s as int),
                origin@ == slots_after(initial_origins(), 0xfee, ob.take(s as int)),
            decreases l - j,
        {
            let ghost w = input@.take(s as int);
            proof {
                crate::model::lemma_ring_of_len(w);
                lemma_mod_basics(0xfee + s as int);
                lemma_slots_len(initial_origins(), 0xfee, ob.take(s as int));
                crate::model::lemma_ring_of_concat(w, seq![input@[s as int]]);
                assert(w + seq![input@[s as int]] =~= input@.take(s + 1));
                lemma_mod_add(0xfee + s as int, 1);
                assert(s0 == total_size(tokens@.take(i as int)));
                assert(ob[s as int] == tag);
                assert(ob.take(s + 1).drop_last() =~= ob.take(s as int));
            }
            origin.set(r, tag);
            push_byte(&mut ring, &mut r, input[s]);
            s = s + 1;
            j += 1;
        }
        proof {
            if s0 == input@.len() {
                assert(ob.take(s as int) =~= origin_bytes(tokens@, i + 1).take(s as int));
            }
        }
        i += 1;
    }
    (ring, origin, r, s)
}

} // verus!
