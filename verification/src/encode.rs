//! Greedy LZSS encoders that differ in which of the longest matches they take.
use vstd::prelude::*;

use crate::greedy::{best_len, emit_token, is_best_match, legal, lemma_best_len, lemma_legal_extends, longest_match_len, mirrors, pos_dist};
use crate::model::{decode, expand, lemma_decode_push, token_wf, head_of, initial_ring, lemma_mod_basics, lemma_mod_by, lemma_ring_of_len, ring_dist, ring_of, Token};
use crate::ring::{check_match, dist_back, max_match_at_pos, new_ring, INITIAL_RING_POS, MIN_MATCH_LEN, RING_SIZE};

verus! {

/// Distinct ring positions lie at distinct distances from any head.
pub proof fn lemma_dist_injective(r: int, p: int, q: int)
    requires
        0 <= p < 4096,
        0 <= q < 4096,
        ring_dist(r, p) == ring_dist(r, q),
    ensures
        p == q,
{
    lemma_mod_basics(r - p);
    lemma_mod_basics(r - q);
    let a = (r - p) / 4096;
    let b = (r - q) / 4096;
    assert(q - p == (a - b) * 4096) by (nonlinear_arith)
        requires
            r - p == a * 4096 + ring_dist(r, p),
            r - q == b * 4096 + ring_dist(r, q),
            ring_dist(r, p) == ring_dist(r, q),
    ;
    if a - b > 0 {
        assert((a - b) * 4096 >= 4096) by (nonlinear_arith)
            requires
                a - b > 0,
        ;
    } else if a - b < 0 {
        assert((a - b) * 4096 <= -4096) by (nonlinear_arith)
            requires
                a - b < 0,
        ;
    }
}

/// The empty token sequence decodes to nothing, on the initial ring.
pub proof fn lemma_mirrors_start()
    ensures
        mirrors(Seq::<Token>::empty(), initial_ring(), INITIAL_RING_POS as int, 0),
{
    assert(decode(Seq::<Token>::empty()) =~= Seq::<u8>::empty());
    lemma_mod_by(0xfee, 0, 0xfee);
}

/// Appending a well-formed token keeps every token well formed.
pub proof fn lemma_push_wf(ts: Seq<Token>, t: Token)
    requires
        forall|j: int| 0 <= j < ts.len() ==> #[trigger] token_wf(ts[j]),
        token_wf(t),
    ensures
        forall|j: int| 0 <= j < ts.push(t).len() ==> #[trigger] token_wf(ts.push(t)[j]),
{
    assert forall|j: int| 0 <= j < ts.push(t).len() implies #[trigger] token_wf(ts.push(t)[j]) by {
        if j < ts.len() {
            assert(ts.push(t)[j] == ts[j]);
        }
    }
}

/// Every token of `ts` is the one `step` allows after the tokens before it,
/// and each was taken while input remained.
pub open spec fn steps_follow(
    input: Seq<u8>,
    ts: Seq<Token>,
    step: spec_fn(Seq<u8>, Token) -> bool,
) -> bool {
    forall|i: int|
        0 <= i < ts.len() ==> decode(#[trigger] ts.take(i)).len() < input.len() && step(
            decode(ts.take(i)),
            ts[i],
        )
}

/// Appending a token that `step` allows keeps `steps_follow`.
pub proof fn lemma_steps_push(
    input: Seq<u8>,
    ts: Seq<Token>,
    t: Token,
    step: spec_fn(Seq<u8>, Token) -> bool,
)
    requires
        steps_follow(input, ts, step),
        decode(ts).len() < input.len(),
        step(decode(ts), t),
    ensures
        steps_follow(input, ts.push(t), step),
{
    let ts2 = ts.push(t);
    assert forall|i: int| 0 <= i < ts2.len() implies decode(#[trigger] ts2.take(i)).len()
        < input.len() && step(decode(ts2.take(i)), ts2[i]) by {
        if i < ts.len() {
            assert(ts2.take(i) =~= ts.take(i));
            assert(ts2[i] == ts[i]);
        } else {
            assert(ts2.take(i) =~= ts);
        }
    }
}

/// The rank-1 choice: the legal longest-match position second closest to the
/// head, or the only one when there is just one.
pub open spec fn rank1_choice(input: Seq<u8>, out: Seq<u8>, p: int) -> bool {
    let b = best_len(input, out);
    &&& is_best_match(input, out, p)
    &&& ((forall|q: int| 0 <= q < 4096 && #[trigger] legal(input, out, q, b) ==> q == p)
        || exists|m: int|
        0 <= m < 4096 && m != p && legal(input, out, m, b) && pos_dist(out, m) < pos_dist(out, p)
            && forall|q: int|
            0 <= q < 4096 && q != m && #[trigger] legal(input, out, q, b) ==> pos_dist(out, p)
                <= pos_dist(out, q))
}

/// One step of the rank-1 encoder: a literal when no match of 3 bytes or
/// more exists, else the rank-1 longest match.
pub open spec fn rank1_step(input: Seq<u8>, out: Seq<u8>, t: Token) -> bool {
    if best_len(input, out) < 3 {
        t == Token::Literal(input[out.len() as int])
    } else {
        t matches Token::Match { pos, len } && len == best_len(input, out) && rank1_choice(
            input,
            out,
            pos as int,
        )
    }
}

/// Position of the rank-1 longest match (see `rank1_choice`).
fn pick_rank1(
    ring: &Vec<u8>,
    r: usize,
    input: &[u8],
    s: usize,
    best: usize,
    Ghost(out): Ghost<Seq<u8>>,
) -> (chosen: usize)
    requires
        ring@ == ring_of(out),
        ring@.len() == 4096,
        out.len() == s,
        r as int == head_of(s as int),
        r < 4096,
        s < input@.len(),
        best as int == best_len(input@, out),
        best >= 3,
        s + best <= input@.len(),
    ensures
        chosen < 4096,
        rank1_choice(input@, out, chosen as int),
{
    let n = input.len();
    let ghost b = best as int;
    proof {
        lemma_best_len(input@, out);
    }
    let mut have1 = false;
    let mut p1: usize = 0;
    let mut d1: u16 = 0;
    let mut have2 = false;
    let mut p2: usize = 0;
    let mut d2: u16 = 0;
    let mut pos: usize = 0;
    while pos < RING_SIZE
        invariant
            n == input@.len(),
            ring@ == ring_of(out),
            ring@.len() == 4096,
            out.len() == s,
            r as int == head_of(s as int),
            r < 4096,
            s < n,
            b == best_len(input@, out),
            b == best as int,
            b >= 3,
            s + b <= n,
            pos <= 4096,
            have1 ==> p1 < pos && legal(input@, out, p1 as int, b) && d1 as int == pos_dist(
                out,
                p1 as int,
            ),
            have1 ==> forall|q: int|
                0 <= q < pos && #[trigger] legal(input@, out, q, b) ==> d1 <= pos_dist(out, q),
            !have1 ==> forall|q: int| 0 <= q < pos ==> !#[trigger] legal(input@, out, q, b),
            have2 ==> have1 && p2 < pos && p2 != p1 && legal(input@, out, p2 as int, b) && d2 as int
                == pos_dist(out, p2 as int),
            have2 ==> forall|q: int|
                0 <= q < pos && q != p1 && #[trigger] legal(input@, out, q, b) ==> d2
                    <= pos_dist(out, q),
            have1 && !have2 ==> forall|q: int|
                0 <= q < pos && #[trigger] legal(input@, out, q, b) ==> q == p1,
        decreases 4096 - pos,
    {
        if check_match(ring, r, pos, input, s, best) {
            let d = dist_back(r, pos as u16);
            assert(d as int == pos_dist(out, pos as int));
            if !have1 || d < d1 {
                have2 = have1;
                p2 = p1;
                d2 = d1;
                have1 = true;
                p1 = pos;
                d1 = d;
            } else if !have2 || d < d2 {
                have2 = true;
                p2 = pos;
                d2 = d;
            }
        }
        pos += 1;
    }
    assert(have1) by {
        let q = choose|q: int| 0 <= q < 4096 && #[trigger] crate::greedy::mlen(input@, out, q) == b;
        assert(legal(input@, out, q, b));
    }
    let chosen = if have2 {
        p2
    } else {
        p1
    };
    proof {
        if have2 {
            if d1 == d2 {
                lemma_dist_injective(head_of(s as int), p1 as int, p2 as int);
            }
            assert(rank1_choice(input@, out, p2 as int)) by {
                assert forall|q: int|
                    0 <= q < 4096 && q != p1 && #[trigger] legal(input@, out, q, b) implies pos_dist(
                    out,
                    p2 as int,
                ) <= pos_dist(out, q) by {}
            }
        } else {
            assert(rank1_choice(input@, out, p1 as int));
        }
    }
    chosen
}

/// Greedy encoder that, among the longest matches, takes the one second
/// closest to the head (the closest when it is the only one).
pub fn encode_rank1(input: &[u8]) -> (tokens: Vec<Token>)
    ensures
        forall|i: int| 0 <= i < tokens@.len() ==> #[trigger] token_wf(tokens@[i]),
        steps_follow(input@, tokens@, |out: Seq<u8>, t: Token| rank1_step(input@, out, t)),
        decode(tokens@) == input@,
{
    let ghost step = |out: Seq<u8>, t: Token| rank1_step(input@, out, t);
    let n = input.len();
    let mut tokens: Vec<Token> = Vec::new();
    let mut ring = new_ring();
    let mut r: usize = INITIAL_RING_POS;
    let mut s: usize = 0;
    proof {
        lemma_mirrors_start();
        assert(input@.take(0) =~= Seq::<u8>::empty());
    }
    while s < n
        invariant
            n == input@.len(),
            mirrors(tokens@, ring@, r as int, s as int),
            ring@.len() == 4096,
            r < 4096,
            s <= n,
            decode(tokens@) == input@.take(s as int),
            step == (|out: Seq<u8>, t: Token| rank1_step(input@, out, t)),
            steps_follow(input@, tokens@, step),
            forall|j: int| 0 <= j < tokens@.len() ==> #[trigger] token_wf(tokens@[j]),
        decreases n - s,
    {
        let ghost out = decode(tokens@);
        proof {
            lemma_best_len(input@, out);
            lemma_ring_of_len(out);
        }
        let best = longest_match_len(&ring, r, input, s);
        assert(best as int == best_len(input@, out));
        if best < MIN_MATCH_LEN {
            let t = Token::Literal(input[s]);
            proof {
                assert(rank1_step(input@, out, t));
                assert(step(out, t));
                lemma_steps_push(input@, tokens@, t, step);
                assert(out + seq![input@[s as int]] =~= input@.take(s + 1));
            }
            proof {
            lemma_push_wf(tokens@, t);
        }
        emit_token(&mut tokens, &mut ring, &mut r, &mut s, t);
            continue;
        }
        let chosen = pick_rank1(&ring, r, input, s, best, Ghost(out));
        let ghost b = best as int;
        let t = Token::Match { pos: chosen as u16, len: best as u8 };
        proof {
            assert(rank1_step(input@, out, t));
            assert(step(out, t));
            lemma_steps_push(input@, tokens@, t, step);
            lemma_legal_extends(input@, out, chosen as int, b);
        }
        proof {
            lemma_push_wf(tokens@, t);
        }
        emit_token(&mut tokens, &mut ring, &mut r, &mut s, t);
    }
    assert(input@.take(n as int) =~= input@);
    tokens
}

/// Every match in `ts` reproduced the input at its step.
pub open spec fn matches_legal(input: Seq<u8>, ts: Seq<Token>) -> bool {
    forall|i: int|
        0 <= i < ts.len() ==> (#[trigger] ts[i] matches Token::Match { pos, len } ==> legal(
            input,
            decode(ts.take(i)),
            pos as int,
            len as int,
        ))
}

/// Appending a literal of the next input byte, or a legal match, keeps the
/// output a prefix of the input as long as every match so far was legal.
#[verifier::spinoff_prover]
pub proof fn lemma_matches_legal_push(input: Seq<u8>, ts: Seq<Token>, t: Token)
    requires
        decode(ts).len() < input.len(),
        matches_legal(input, ts) ==> decode(ts) == input.take(decode(ts).len() as int),
        t matches Token::Literal(b) ==> b == input[decode(ts).len() as int],
        t matches Token::Match { pos, len } ==> len < 4096,
    ensures
        matches_legal(input, ts.push(t)) ==> decode(ts.push(t)) == input.take(
            decode(ts.push(t)).len() as int,
        ),
{
    let ts2 = ts.push(t);
    let out = decode(ts);
    crate::model::lemma_decode_push(ts, t);
    if matches_legal(input, ts2) {
        assert(matches_legal(input, ts)) by {
            assert forall|i: int| 0 <= i < ts.len() implies (#[trigger] ts[i] matches Token::Match {
                pos,
                len,
            } ==> legal(input, decode(ts.take(i)), pos as int, len as int)) by {
                assert(ts2[i] == ts[i]);
                assert(ts2.take(i) =~= ts.take(i));
            }
        }
        assert(ts2.take(ts.len() as int) =~= ts);
        assert(ts2[ts.len() as int] == t);
        match t {
            Token::Literal(b) => {
                assert(out + seq![b] =~= input.take(out.len() + 1int));
            },
            Token::Match { pos, len } => {
                lemma_legal_extends(input, out, pos as int, len as int);
            },
        }
    }
}

/// How the M7 encoder picks among the longest matches.
#[derive(Clone, Copy, Debug, PartialEq, Eq, Structural)]
pub enum SelectRule {
    /// The smallest ring position.
    LeftmostPos,
    /// The smallest non-zero distance from the head.
    MinDist,
    /// The largest distance from the head.
    MaxDist,
}

/// Whether the M7 encoder must emit a literal: the current row, `s / width`,
/// lies above `early_y_threshold`.
pub open spec fn m7_forced_literal(s: int, width: int, early_y_threshold: int) -> bool {
    early_y_threshold > 0 && (if width > 0 {
        s / width
    } else {
        0
    }) < early_y_threshold
}

/// The M7 encoder emits literals exactly over its first
/// `early_y_threshold` rows: for a positive width, while fewer than
/// `early_y_threshold * width` bytes have been emitted; without a width,
/// always when the threshold is positive; never when it is 0.
pub proof fn lemma_m7_forced_rows(s: int, width: int, t: int)
    requires
        s >= 0,
    ensures
        width > 0 ==> (m7_forced_literal(s, width, t) <==> (t > 0 && s < t * width)),
        width <= 0 ==> (m7_forced_literal(s, width, t) <==> t > 0),
        t <= 0 ==> !m7_forced_literal(s, width, t),
{
    if width > 0 && t > 0 {
        vstd::arithmetic::div_mod::lemma_fundamental_div_mod(s, width);
        vstd::arithmetic::div_mod::lemma_mod_bound(s, width);
        let q = s / width;
        if q < t {
            assert(q * width + s % width < t * width) by (nonlinear_arith)
                requires
                    q < t,
                    0 <= s % width < width,
                    width > 0,
            ;
        } else {
            assert(q * width >= t * width) by (nonlinear_arith)
                requires
                    q >= t,
                    width > 0,
            ;
        }
        assert(width * q == q * width) by (nonlinear_arith);
    }
}

/// The position the M7 encoder takes for a longest match of length `b`.
/// Under `MinDist` and `MaxDist`, when no legal position lies at a non-zero
/// distance, the encoder falls back to position 0.
pub open spec fn m7_choice(input: Seq<u8>, out: Seq<u8>, rule: SelectRule, p: int) -> bool {
    let b = best_len(input, out);
    match rule {
        SelectRule::LeftmostPos => is_best_match(input, out, p) && forall|q: int|
            0 <= q < p ==> !#[trigger] legal(input, out, q, b),
        SelectRule::MinDist => if exists|q: int|
            0 <= q < 4096 && #[trigger] legal(input, out, q, b) && pos_dist(out, q) != 0 {
            is_best_match(input, out, p) && pos_dist(out, p) != 0 && forall|q: int|
                0 <= q < 4096 && #[trigger] legal(input, out, q, b) && pos_dist(out, q) != 0
                    ==> pos_dist(out, p) <= pos_dist(out, q)
        } else {
            p == 0
        },
        SelectRule::MaxDist => if exists|q: int|
            0 <= q < 4096 && #[trigger] legal(input, out, q, b) && pos_dist(out, q) != 0 {
            is_best_match(input, out, p) && pos_dist(out, p) != 0 && forall|q: int|
                0 <= q < 4096 && #[trigger] legal(input, out, q, b) ==> pos_dist(out, q)
                    <= pos_dist(out, p)
        } else {
            p == 0
        },
    }
}

/// One step of the M7 encoder.
pub open spec fn m7_step(
    input: Seq<u8>,
    width: int,
    early_y_threshold: int,
    rule: SelectRule,
    out: Seq<u8>,
    t: Token,
) -> bool {
    if m7_forced_literal(out.len() as int, width, early_y_threshold) || best_len(input, out) < 3 {
        t == Token::Literal(input[out.len() as int])
    } else {
        t matches Token::Match { pos, len } && len == best_len(input, out) && m7_choice(
            input,
            out,
            rule,
            pos as int,
        )
    }
}

/// Position of the M7 choice among the longest matches (see `m7_choice`).
fn pick_m7(
    ring: &Vec<u8>,
    r: usize,
    input: &[u8],
    s: usize,
    best: usize,
    rule: SelectRule,
    Ghost(out): Ghost<Seq<u8>>,
) -> (chosen: usize)
    requires
        ring@ == ring_of(out),
        ring@.len() == 4096,
        out.len() == s,
        r as int == head_of(s as int),
        r < 4096,
        s < input@.len(),
        best as int == best_len(input@, out),
        best >= 3,
        s + best <= input@.len(),
    ensures
        chosen < 4096,
        m7_choice(input@, out, rule, chosen as int),
{
    let ghost b = best as int;
    let n = input.len();
    proof {
        lemma_best_len(input@, out);
    }
    let mut chosen: usize = 0;
    let mut pos: usize = 0;
    match rule {
        SelectRule::LeftmostPos => {
            let mut found = false;
            while pos < RING_SIZE
                invariant_except_break
                    ring@ == ring_of(out),
                    ring@.len() == 4096,
                    out.len() == s,
                    r as int == head_of(s as int),
                    r < 4096,
                    b == best_len(input@, out),
                    b == best as int,
                    s + b <= input@.len(),
                    n == input@.len(),
                    pos <= 4096,
                    forall|q: int| 0 <= q < pos ==> !#[trigger] legal(input@, out, q, b),
                    chosen == 0,
                ensures
                    chosen < 4096,
                    legal(input@, out, chosen as int, b) ==> forall|q: int|
                        0 <= q < chosen ==> !#[trigger] legal(input@, out, q, b),
                    legal(input@, out, chosen as int, b) || forall|q: int|
                        0 <= q < 4096 ==> !#[trigger] legal(input@, out, q, b),
                decreases 4096 - pos,
            {
                if check_match(ring, r, pos, input, s, best) {
                    chosen = pos;
                    break;
                }
                pos += 1;
            }
            proof {
                let q = choose|q: int| 0 <= q < 4096 && #[trigger] crate::greedy::mlen(input@, out, q) == b;
                assert(legal(input@, out, q, b));
            }
        },
        SelectRule::MinDist => {
            let mut min_d: u16 = u16::MAX;
            while pos < RING_SIZE
                invariant
                    ring@ == ring_of(out),
                    ring@.len() == 4096,
                    out.len() == s,
                    r as int == head_of(s as int),
                    r < 4096,
                    b == best_len(input@, out),
                    b == best as int,
                    s + b <= input@.len(),
                    n == input@.len(),
                    pos <= 4096,
                    chosen < 4096,
                    min_d == u16::MAX ==> chosen == 0 && forall|q: int|
                        0 <= q < pos && #[trigger] legal(input@, out, q, b) ==> pos_dist(out, q)
                            == 0,
                    min_d != u16::MAX ==> legal(input@, out, chosen as int, b) && min_d as int
                        == pos_dist(out, chosen as int) && min_d != 0,
                    forall|q: int|
                        0 <= q < pos && #[trigger] legal(input@, out, q, b) && pos_dist(out, q)
                            != 0 ==> min_d <= pos_dist(out, q),
                decreases 4096 - pos,
            {
                if check_match(ring, r, pos, input, s, best) {
                    let d = dist_back(r, pos as u16);
                    if d != 0 && d < min_d {
                        min_d = d;
                        chosen = pos;
                    }
                }
                pos += 1;
            }
            proof {
                if min_d != u16::MAX {
                    assert(exists|q: int|
                        0 <= q < 4096 && #[trigger] legal(input@, out, q, b) && pos_dist(out, q)
                            != 0) by {
                        assert(legal(input@, out, chosen as int, b));
                    }
                }
            }
        },
        SelectRule::MaxDist => {
            let mut max_d: u16 = 0;
            while pos < RING_SIZE
                invariant
                    ring@ == ring_of(out),
                    ring@.len() == 4096,
                    out.len() == s,
                    r as int == head_of(s as int),
                    r < 4096,
                    b == best_len(input@, out),
                    b == best as int,
                    s + b <= input@.len(),
                    n == input@.len(),
                    pos <= 4096,
                    chosen < 4096,
                    max_d == 0 ==> chosen == 0 && forall|q: int|
                        0 <= q < pos && #[trigger] legal(input@, out, q, b) ==> pos_dist(out, q)
                            == 0,
                    max_d != 0 ==> legal(input@, out, chosen as int, b) && max_d as int
                        == pos_dist(out, chosen as int),
                    forall|q: int|
                        0 <= q < pos && #[trigger] legal(input@, out, q, b) ==> pos_dist(out, q)
                            <= max_d,
                decreases 4096 - pos,
            {
                if check_match(ring, r, pos, input, s, best) {
                    let d = dist_back(r, pos as u16);
                    if d > max_d {
                        max_d = d;
                        chosen = pos;
                    }
                }
                pos += 1;
            }
            proof {
                if max_d != 0 {
                    assert(exists|q: int|
                        0 <= q < 4096 && #[trigger] legal(input@, out, q, b) && pos_dist(out, q)
                            != 0) by {
                        assert(legal(input@, out, chosen as int, b));
                    }
                }
            }
        },
    }
    chosen
}

/// Greedy encoder of the M7 experiment: literals only while the row
/// `s / width` is above `early_y_threshold` (when that is non-zero), then
/// the longest match picked by `select_rule`.
pub fn encode_m7(
    input: &[u8],
    width: usize,
    early_y_threshold: usize,
    select_rule: SelectRule,
) -> (tokens: Vec<Token>)
    ensures
        forall|i: int| 0 <= i < tokens@.len() ==> #[trigger] token_wf(tokens@[i]),
        steps_follow(
            input@,
            tokens@,
            |out: Seq<u8>, t: Token|
                m7_step(input@, width as int, early_y_threshold as int, select_rule, out, t),
        ),
        decode(tokens@).len() == input@.len(),
        matches_legal(input@, tokens@) ==> decode(tokens@) == input@,
{
    let ghost step = |out: Seq<u8>, t: Token|
        m7_step(input@, width as int, early_y_threshold as int, select_rule, out, t);
    let n = input.len();
    let mut tokens: Vec<Token> = Vec::new();
    let mut ring = new_ring();
    let mut r: usize = INITIAL_RING_POS;
    let mut s: usize = 0;
    proof {
        lemma_mirrors_start();
        assert(input@.take(0) =~= Seq::<u8>::empty());
    }
    while s < n
        invariant
            n == input@.len(),
            mirrors(tokens@, ring@, r as int, s as int),
            ring@.len() == 4096,
            r < 4096,
            s <= n,
            matches_legal(input@, tokens@) ==> decode(tokens@) == input@.take(s as int),
            step == (|out: Seq<u8>, t: Token|
                m7_step(input@, width as int, early_y_threshold as int, select_rule, out, t)),
            steps_follow(input@, tokens@, step),
            forall|j: int| 0 <= j < tokens@.len() ==> #[trigger] token_wf(tokens@[j]),
        decreases n - s,
    {
        let ghost out = decode(tokens@);
        proof {
            lemma_best_len(input@, out);
            lemma_ring_of_len(out);
        }
        let y = if width > 0 {
            s / width
        } else {
            0
        };
        let force_literal_early = early_y_threshold > 0 && y < early_y_threshold;
        let mut best: usize = 0;
        if !force_literal_early {
            best = longest_match_len(&ring, r, input, s);
            assert(best as int == best_len(input@, out));
        }
        if best < MIN_MATCH_LEN {
            let t = Token::Literal(input[s]);
            proof {
                assert(m7_step(input@, width as int, early_y_threshold as int, select_rule, out, t));
                assert(step(out, t));
                lemma_steps_push(input@, tokens@, t, step);
                lemma_matches_legal_push(input@, tokens@, t);
            }
            proof {
            lemma_push_wf(tokens@, t);
        }
        emit_token(&mut tokens, &mut ring, &mut r, &mut s, t);
            continue;
        }
        let chosen = pick_m7(&ring, r, input, s, best, select_rule, Ghost(out));
        let t = Token::Match { pos: chosen as u16, len: best as u8 };
        proof {
            assert(m7_step(input@, width as int, early_y_threshold as int, select_rule, out, t));
            assert(step(out, t));
            lemma_steps_push(input@, tokens@, t, step);
            lemma_matches_legal_push(input@, tokens@, t);
        }
        proof {
            lemma_push_wf(tokens@, t);
        }
        emit_token(&mut tokens, &mut ring, &mut r, &mut s, t);
    }
    assert(input@.take(n as int) =~= input@);
    tokens
}

/// Number of rows above the current one that the 2D encoder favours:
/// `4096 / width`, at least 1.
pub open spec fn max_k_2d(width: int) -> int {
    if width > 0 && 4096int / width > 1 {
        4096int / width
    } else {
        1
    }
}

/// Priority of a match at distance `d` in the 2D encoder: `k` for a pixel
/// `k` rows straight above (`d == k * width`), else one more than any row.
pub open spec fn pri_2d(width: int, d: int) -> int {
    if width > 0 && d % width == 0 && d > 0 {
        d / width
    } else {
        max_k_2d(width) + 1
    }
}

/// The 2D encoder ranks a pixel `k` rows straight above at `k`, and every
/// distance that is not a whole number of rows after all of those within
/// the ring.
pub proof fn lemma_pri_2d_rows(width: int, k: int, d: int)
    requires
        width > 0,
        k >= 1,
        k * width <= 4096,
    ensures
        pri_2d(width, k * width) == k,
        d % width != 0 || d <= 0 ==> pri_2d(width, d) > pri_2d(width, k * width),
{
    crate::encode::lemma_mul_div(k, width);
    assert(k * width > 0) by (nonlinear_arith)
        requires
            k >= 1,
            width > 0,
    ;
    vstd::arithmetic::div_mod::lemma_div_is_ordered(k * width, 4096, width);
    if width > 4096 {
        assert(k * width > 4096) by (nonlinear_arith)
            requires
                k >= 1,
                width > 4096,
        ;
    }
}

/// Among the longest matches, the 2D encoder takes the lowest priority and,
/// among those, the shortest distance.
pub open spec fn enc2d_choice(input: Seq<u8>, out: Seq<u8>, width: int, p: int) -> bool {
    let b = best_len(input, out);
    &&& is_best_match(input, out, p)
    &&& forall|q: int|
        0 <= q < 4096 && #[trigger] legal(input, out, q, b) ==> pri_2d(width, pos_dist(out, q))
            > pri_2d(width, pos_dist(out, p)) || (pri_2d(width, pos_dist(out, q)) == pri_2d(
            width,
            pos_dist(out, p),
        ) && pos_dist(out, q) >= pos_dist(out, p))
}

/// One step of the 2D encoder.
pub open spec fn enc2d_step(input: Seq<u8>, width: int, out: Seq<u8>, t: Token) -> bool {
    if best_len(input, out) < 3 {
        t == Token::Literal(input[out.len() as int])
    } else {
        t matches Token::Match { pos, len } && len == best_len(input, out) && enc2d_choice(
            input,
            out,
            width,
            pos as int,
        )
    }
}

/// Whether candidate `(l, pri, d)` beats the current best `(bl, bp, bd)`:
/// longer first, then lower priority, then shorter distance.
pub open spec fn beats_2d(l: int, pri: int, d: int, bl: int, bp: int, bd: int) -> bool {
    l > bl || (l == bl && pri < bp) || (l == bl && pri == bp && d < bd)
}

/// The rows the 2D encoder looks up stay within the ring, or it is a single
/// row of a width beyond the ring.
proof fn lemma_k_width(k: int, width: int, max_k: int)
    requires
        width > 0,
        1 <= k <= max_k,
        max_k == max_k_2d(width),
    ensures
        k * width <= 4096 || (k == 1 && width > 4096),
{
    vstd::arithmetic::div_mod::lemma_fundamental_div_mod(4096, width);
    let q = 4096int / width;
    if width > 4096 {
        vstd::arithmetic::div_mod::lemma_basic_div(4096, width);
    } else {
        assert(q >= 1) by {
            vstd::arithmetic::div_mod::lemma_div_is_ordered(width, 4096, width);
            vstd::arithmetic::div_mod::lemma_div_by_self(width);
        }
        assert(max_k <= q);
        assert(k * width <= q * width) by (nonlinear_arith)
            requires
                k <= q,
                width > 0,
        ;
        assert(q * width <= 4096) by (nonlinear_arith)
            requires
                4096 == width * q + 4096int % width,
                4096int % width >= 0,
        ;
    }
}

/// `(k * width) / width == k` and the remainder is 0.
proof fn lemma_mul_div(k: int, width: int)
    requires
        width > 0,
        k >= 0,
    ensures
        (k * width) / width == k,
        (k * width) % width == 0,
{
    vstd::arithmetic::div_mod::lemma_fundamental_div_mod_converse(k * width, width, k, 0);
}

/// The longest match and the 2D choice among them (see `enc2d_choice`);
/// length 0 when no match of 3 bytes or more exists.
fn pick_2d(
    ring: &Vec<u8>,
    r: usize,
    input: &[u8],
    s: usize,
    width: usize,
    Ghost(out): Ghost<Seq<u8>>,
) -> (res: (usize, usize))
    requires
        ring@ == ring_of(out),
        ring@.len() == 4096,
        out.len() == s,
        r as int == head_of(s as int),
        r < 4096,
        s < input@.len(),
    ensures
        res.0 as int == best_len(input@, out),
        res.0 >= 3 ==> res.1 < 4096 && enc2d_choice(input@, out, width as int, res.1 as int),
{
    proof {
        lemma_best_len(input@, out);
    }
    let max_k: usize = if width > 0 {
        let q = RING_SIZE / width;
        if q > 1 {
            q
        } else {
            1
        }
    } else {
        1
    };
    let ghost mk = max_k_2d(width as int);
    assert(max_k as int == mk);
    let mut best_len_v: usize = 0;
    let mut best_pos: usize = 0;
    let mut best_priority: u32 = u32::MAX;
    let mut best_dist: u16 = 0xFFFF;
    if width > 0 {
        let mut k: usize = 1;
        while k <= max_k
            invariant
                ring@ == ring_of(out),
                ring@.len() == 4096,
                out.len() == s,
                r as int == head_of(s as int),
                r < 4096,
                s < input@.len(),
                width > 0,
                max_k as int == max_k_2d(width as int),
                1 <= max_k <= 4096,
                1 <= k <= max_k + 1,
                best_len_v > 0 ==> best_pos < 4096 && best_len_v as int == crate::greedy::mlen(
                    input@,
                    out,
                    best_pos as int,
                ) && best_priority as int == pri_2d(width as int, pos_dist(out, best_pos as int))
                    && best_dist as int == pos_dist(out, best_pos as int),
            decreases max_k + 1 - k,
        {
            proof {
                lemma_k_width(k as int, width as int, max_k as int);
            }
            let offset = k * width;
            if offset > 0 && offset < RING_SIZE {
                let pos = (r + 0x1000 - offset) & 0x0fff;
                proof {
                    crate::ring::lemma_mask((r + 0x1000 - offset) as usize);
                }
                let l = max_match_at_pos(ring, r, pos, input, s);
                if l != 0 {
                    let priority = k as u32;
                    let dist = dist_back(r, pos as u16);
                    proof {
                        lemma_pos_dist_offset(r as int, offset as int, pos as int);
                        lemma_mul_div(k as int, width as int);
                        assert(dist as int == offset as int);
                        assert(pri_2d(width as int, offset as int) == k as int);
                    }
                    if l > best_len_v || (l == best_len_v && priority < best_priority) || (l
                        == best_len_v && priority == best_priority && dist < best_dist) {
                        best_len_v = l;
                        best_pos = pos;
                        best_priority = priority;
                        best_dist = dist;
                    }
                }
            }
            k += 1;
        }
    }
    let mut pos: usize = 0;
    while pos < RING_SIZE
        invariant
            ring@ == ring_of(out),
            ring@.len() == 4096,
            out.len() == s,
            r as int == head_of(s as int),
            r < 4096,
            s < input@.len(),
            max_k as int == max_k_2d(width as int),
            1 <= max_k <= 4096,
            pos <= 4096,
            best_len_v > 0 ==> best_pos < 4096 && best_len_v as int == crate::greedy::mlen(
                input@,
                out,
                best_pos as int,
            ) && best_priority as int == pri_2d(width as int, pos_dist(out, best_pos as int))
                && best_dist as int == pos_dist(out, best_pos as int),
            forall|q: int|
                0 <= q < pos && #[trigger] crate::greedy::mlen(input@, out, q) > 0 ==> !beats_2d(
                    crate::greedy::mlen(input@, out, q),
                    pri_2d(width as int, pos_dist(out, q)),
                    pos_dist(out, q),
                    best_len_v as int,
                    best_priority as int,
                    best_dist as int,
                ),
        decreases 4096 - pos,
    {
        let l = max_match_at_pos(ring, r, pos, input, s);
        assert(l as int == crate::greedy::mlen(input@, out, pos as int));
        if l != 0 {
            let dist = dist_back(r, pos as u16);
            let priority = if width > 0 && (dist as usize) % width == 0 && (dist as usize) > 0 {
                ((dist as usize) / width) as u32
            } else {
                (max_k + 1) as u32
            };
            assert(dist as int == pos_dist(out, pos as int));
            assert(max_k + 1 == max_k_2d(width as int) + 1);
            assert(priority as int == pri_2d(width as int, dist as int));
            if l > best_len_v || (l == best_len_v && priority < best_priority) || (l == best_len_v
                && priority == best_priority && dist < best_dist) {
                best_len_v = l;
                best_pos = pos;
                best_priority = priority;
                best_dist = dist;
            }
        }
        pos += 1;
    }
    proof {
        let b = best_len(input@, out);
        if b > 0 {
            let q = choose|q: int| 0 <= q < 4096 && #[trigger] crate::greedy::mlen(input@, out, q) == b;
            assert(crate::greedy::mlen(input@, out, q) > 0);
        }
        if best_len_v > 0 {
            assert(crate::greedy::mlen(input@, out, best_pos as int) <= b);
        }
        if b >= 3 {
            assert forall|q: int|
                0 <= q < 4096 && #[trigger] legal(input@, out, q, b) implies pri_2d(
                width as int,
                pos_dist(out, q),
            ) > pri_2d(width as int, pos_dist(out, best_pos as int)) || (pri_2d(
                width as int,
                pos_dist(out, q),
            ) == pri_2d(width as int, pos_dist(out, best_pos as int)) && pos_dist(out, q)
                >= pos_dist(out, best_pos as int)) by {
                assert(crate::greedy::mlen(input@, out, q) == b);
            }
        }
    }
    (best_len_v, best_pos)
}

/// The distance back to `(r - offset) mod 4096` is `offset`.
proof fn lemma_pos_dist_offset(r: int, offset: int, pos: int)
    requires
        0 <= r < 4096,
        0 < offset < 4096,
        pos == (r + 4096 - offset) % 4096,
    ensures
        ring_dist(r, pos) == offset,
{
    lemma_mod_basics(r + 4096 - offset);
    let q = (r + 4096 - offset) / 4096;
    assert(r - pos == offset + (q - 1) * 4096) by (nonlinear_arith)
        requires
            r + 4096 - offset == q * 4096 + pos,
    ;
    lemma_mod_by(r - pos, q - 1, offset);
}

/// Greedy 2D-aware encoder of the M6 experiment: among the longest matches
/// it favours pixels straight above (the fewer rows up, the better), then
/// the shortest distance.
pub fn encode_2d(input: &[u8], width: usize) -> (tokens: Vec<Token>)
    ensures
        forall|i: int| 0 <= i < tokens@.len() ==> #[trigger] token_wf(tokens@[i]),
        steps_follow(
            input@,
            tokens@,
            |out: Seq<u8>, t: Token| enc2d_step(input@, width as int, out, t),
        ),
        decode(tokens@) == input@,
{
    let ghost step = |out: Seq<u8>, t: Token| enc2d_step(input@, width as int, out, t);
    let n = input.len();
    let mut tokens: Vec<Token> = Vec::new();
    let mut ring = new_ring();
    let mut r: usize = INITIAL_RING_POS;
    let mut s: usize = 0;
    proof {
        lemma_mirrors_start();
        assert(input@.take(0) =~= Seq::<u8>::empty());
    }
    while s < n
        invariant
            n == input@.len(),
            mirrors(tokens@, ring@, r as int, s as int),
            ring@.len() == 4096,
            r < 4096,
            s <= n,
            decode(tokens@) == input@.take(s as int),
            step == (|out: Seq<u8>, t: Token| enc2d_step(input@, width as int, out, t)),
            steps_follow(input@, tokens@, step),
            forall|j: int| 0 <= j < tokens@.len() ==> #[trigger] token_wf(tokens@[j]),
        decreases n - s,
    {
        let ghost out = decode(tokens@);
        proof {
            lemma_best_len(input@, out);
            lemma_ring_of_len(out);
        }
        let (best, best_pos) = pick_2d(&ring, r, input, s, width, Ghost(out));
        if best < MIN_MATCH_LEN {
            let t = Token::Literal(input[s]);
            proof {
                assert(enc2d_step(input@, width as int, out, t));
                assert(step(out, t));
                lemma_steps_push(input@, tokens@, t, step);
                assert(out + seq![input@[s as int]] =~= input@.take(s + 1));
            }
            proof {
            lemma_push_wf(tokens@, t);
        }
        emit_token(&mut tokens, &mut ring, &mut r, &mut s, t);
            continue;
        }
        let t = Token::Match { pos: best_pos as u16, len: best as u8 };
        proof {
            assert(enc2d_step(input@, width as int, out, t));
            assert(step(out, t));
            lemma_steps_push(input@, tokens@, t, step);
            lemma_legal_extends(input@, out, best_pos as int, best as int);
        }
        proof {
            lemma_push_wf(tokens@, t);
        }
        emit_token(&mut tokens, &mut ring, &mut r, &mut s, t);
    }
    assert(input@.take(n as int) =~= input@);
    tokens
}

/// Priority of a match by its (row, column) offset, smaller first, as the
/// M20 frequency table has it.
pub open spec fn priority_2d_spec(row: int, col: int) -> int {
    if row == 0 && col == 1 {
        0
    } else if row == 1 && col == 0 {
        1
    } else if row == 1 && (col == -1 || col == 1) {
        2
    } else if row == 1 && (col == -2 || col == 2) {
        3
    } else if row == 2 && col == 0 {
        4
    } else if row == 1 {
        5
    } else if row == 2 {
        6
    } else if row == 0 {
        7
    } else if row == 3 {
        8
    } else if row == 4 {
        9
    } else {
        10 + row
    }
}

/// The M20 table: the left neighbour (0, 1) first, then straight above
/// (1, 0), the two diagonals (1, ±1), two columns over (1, ±2), two rows up
/// (2, 0), the rest of the row above, the rest of two rows up, the rest of
/// the current row, rows 3 and 4, and further rows by their number.  Off the
/// current row the table does not tell left from right, and in the row
/// above a column closer to straight up never ranks behind a farther one.
pub proof fn lemma_priority_table(row: int, col: int, col2: int)
    ensures
        priority_2d_spec(0, 1) == 0,
        priority_2d_spec(1, 0) == 1,
        priority_2d_spec(1, 1) == 2 && priority_2d_spec(1, -1) == 2,
        priority_2d_spec(1, 2) == 3 && priority_2d_spec(1, -2) == 3,
        priority_2d_spec(2, 0) == 4,
        (col > 2 || col < -2) ==> priority_2d_spec(1, col) == 5,
        col != 0 ==> priority_2d_spec(2, col) == 6,
        col != 1 ==> priority_2d_spec(0, col) == 7,
        priority_2d_spec(3, col) == 8 && priority_2d_spec(4, col) == 9,
        (row < 0 || row > 4) ==> priority_2d_spec(row, col) == 10 + row,
        row != 0 ==> priority_2d_spec(row, col) == priority_2d_spec(row, -col),
        (if col < 0 { -col } else { col }) <= (if col2 < 0 { -col2 } else { col2 }) ==> priority_2d_spec(1, col)
            <= priority_2d_spec(1, col2),
        0 <= row <= 4 ==> 0 <= priority_2d_spec(row, col) <= 9,
{
}

/// Priority of a match `row` rows up and `col` columns to the right
/// (smaller is preferred).
pub fn priority_2d(row: i32, col: i32, _width: i32) -> (p: i32)
    requires
        row <= i32::MAX - 10,
    ensures
        p as int == priority_2d_spec(row as int, col as int),
        row == 0 && col == 1 ==> p == 0,
        row == 1 && col == 0 ==> p == 1,
        row == 1 && (col == 1 || col == -1) ==> p == 2,
        row == 1 && (col == 2 || col == -2) ==> p == 3,
        row == 2 && col == 0 ==> p == 4,
        row == 1 && (col > 2 || col < -2) ==> p == 5,
        row != 0 ==> p as int == priority_2d_spec(row as int, -(col as int)),
{
    match (row, col) {
        (0, 1) => 0,
        (1, 0) => 1,
        (1, -1) | (1, 1) => 2,
        (1, -2) | (1, 2) => 3,
        (2, 0) => 4,
        (1, _) => 5,
        (2, _) => 6,
        (0, _) => 7,
        (3, _) => 8,
        (4, _) => 9,
        _ => 10 + row,
    }
}

/// The (row, column) offset of a match at distance `d` in an image of width
/// `w`: whole rows up, and the columns left over, counted from the next row
/// up (negative) when more than half a row.
pub open spec fn offset_2d(d: int, w: int) -> (int, int) {
    let row = d / w;
    let col = d - row * w;
    if col > w / 2 {
        (row + 1, col - w)
    } else {
        (row, col)
    }
}

/// The (row, column) offset of a distance is the one way of writing it as
/// whole rows plus a column within half a row of straight above:
/// `row * w + col == d` with `w / 2 - w < col <= w / 2`.
pub proof fn lemma_offset_2d_unique(d: int, w: int, row: int, col: int)
    requires
        d >= 0,
        w > 0,
    ensures
        offset_2d(d, w).0 * w + offset_2d(d, w).1 == d,
        w / 2 - w < offset_2d(d, w).1 <= w / 2,
        offset_2d(d, w).0 >= 0,
        row * w + col == d && w / 2 - w < col <= w / 2 ==> offset_2d(d, w) == (row, col),
{
    vstd::arithmetic::div_mod::lemma_fundamental_div_mod(d, w);
    assert((d / w) * w == w * (d / w)) by (nonlinear_arith);
    assert(d - (d / w) * w == d % w);
    crate::offsets::lemma_grid_offset_unique(d, w, row, col);
}

/// Priority of the match at distance `d` in the M20 encoder.
pub open spec fn pri_2d_table(d: int, w: int) -> int {
    priority_2d_spec(offset_2d(d, w).0, offset_2d(d, w).1)
}

/// The M20 choice among the longest matches: at a non-zero distance, the
/// lowest table priority and then the shortest distance; position 0 when no
/// legal position lies at a non-zero distance.
pub open spec fn enc2dp_choice(input: Seq<u8>, out: Seq<u8>, width: int, p: int) -> bool {
    let b = best_len(input, out);
    if exists|q: int| 0 <= q < 4096 && #[trigger] legal(input, out, q, b) && pos_dist(out, q) != 0 {
        &&& is_best_match(input, out, p)
        &&& pos_dist(out, p) != 0
        &&& forall|q: int|
            0 <= q < 4096 && #[trigger] legal(input, out, q, b) && pos_dist(out, q) != 0
                ==> pri_2d_table(pos_dist(out, q), width) > pri_2d_table(pos_dist(out, p), width)
                || (pri_2d_table(pos_dist(out, q), width) == pri_2d_table(pos_dist(out, p), width)
                && pos_dist(out, q) >= pos_dist(out, p))
    } else {
        p == 0
    }
}

/// One step of the M20 encoder.
pub open spec fn enc2dp_step(input: Seq<u8>, width: int, out: Seq<u8>, t: Token) -> bool {
    if best_len(input, out) < 3 {
        t == Token::Literal(input[out.len() as int])
    } else {
        t matches Token::Match { pos, len } && len == best_len(input, out) && enc2dp_choice(
            input,
            out,
            width,
            pos as int,
        )
    }
}

/// Whether the M20 encoder, run without an image width from the output
/// `out` on (for at most `fuel` more tokens), never meets a longest match
/// at a non-zero distance: the only place where it needs the width.  Where
/// every longest match lies at distance 0 it takes position 0.
pub open spec fn w0_safe(input: Seq<u8>, out: Seq<u8>, fuel: nat) -> bool
    decreases fuel,
{
    if fuel == 0 || out.len() >= input.len() {
        true
    } else {
        let b = best_len(input, out);
        if b < 3 {
            w0_safe(input, out.push(input[out.len() as int]), (fuel - 1) as nat)
        } else {
            &&& forall|q: int|
                0 <= q < 4096 && #[trigger] legal(input, out, q, b) ==> pos_dist(out, q) == 0
            &&& w0_safe(
                input,
                out + expand(Token::Match { pos: 0, len: b as u8 }, out),
                (fuel - 1) as nat,
            )
        }
    }
}

/// Less fuel asks less.
proof fn lemma_w0_safe_less(input: Seq<u8>, out: Seq<u8>, fuel: nat, less: nat)
    requires
        w0_safe(input, out, fuel),
        less <= fuel,
    ensures
        w0_safe(input, out, less),
    decreases less,
{
    if less > 0 && out.len() < input.len() {
        let b = best_len(input, out);
        if b < 3 {
            lemma_w0_safe_less(input, out.push(input[out.len() as int]), (fuel - 1) as nat, (less - 1) as nat);
        } else {
            lemma_w0_safe_less(
                input,
                out + expand(Token::Match { pos: 0, len: b as u8 }, out),
                (fuel - 1) as nat,
                (less - 1) as nat,
            );
        }
    }
}

/// Position of the M20 choice among the longest matches (see `enc2dp_choice`).
fn pick_2d_priority(
    ring: &Vec<u8>,
    r: usize,
    input: &[u8],
    s: usize,
    width: usize,
    best: usize,
    Ghost(out): Ghost<Seq<u8>>,
) -> (chosen: usize)
    requires
        ring@ == ring_of(out),
        ring@.len() == 4096,
        out.len() == s,
        r as int == head_of(s as int),
        r < 4096,
        s < input@.len(),
        width <= i32::MAX,
        best as int == best_len(input@, out),
        best >= 3,
        s + best <= input@.len(),
        width == 0 ==> forall|q: int|
            0 <= q < 4096 && #[trigger] legal(input@, out, q, best as int) ==> pos_dist(out, q) == 0,
    ensures
        chosen < 4096,
        enc2dp_choice(input@, out, width as int, chosen as int),
{
    let ghost b = best as int;
    let n = input.len();
    proof {
        lemma_best_len(input@, out);
    }
    let mut best_pos: usize = 0;
    let mut best_pri: i32 = i32::MAX;
    let mut best_dist: u16 = u16::MAX;
    let mut pos: usize = 0;
    while pos < RING_SIZE
        invariant
            ring@ == ring_of(out),
            ring@.len() == 4096,
            out.len() == s,
            r as int == head_of(s as int),
            r < 4096,
            n == input@.len(),
            width <= i32::MAX,
            width == 0 ==> forall|q: int|
                0 <= q < 4096 && #[trigger] legal(input@, out, q, b) ==> pos_dist(out, q) == 0,
            b == best_len(input@, out),
            b == best as int,
            s + b <= n,
            pos <= 4096,
            best_pos < 4096,
            best_dist == u16::MAX ==> best_pos == 0 && best_pri == i32::MAX && forall|q: int|
                0 <= q < pos && #[trigger] legal(input@, out, q, b) ==> pos_dist(out, q) == 0,
            best_dist != u16::MAX ==> legal(input@, out, best_pos as int, b) && best_dist as int
                == pos_dist(out, best_pos as int) && best_dist != 0 && best_pri as int
                == pri_2d_table(best_dist as int, width as int),
            forall|q: int|
                0 <= q < pos && #[trigger] legal(input@, out, q, b) && pos_dist(out, q) != 0
                    ==> pri_2d_table(pos_dist(out, q), width as int) > best_pri || (pri_2d_table(
                    pos_dist(out, q),
                    width as int,
                ) == best_pri && pos_dist(out, q) >= best_dist),
        decreases 4096 - pos,
    {
        if check_match(ring, r, pos, input, s, best) {
            let dist = dist_back(r, pos as u16);
            if dist != 0 {
                proof {
                    if width == 0 {
                        assert(legal(input@, out, pos as int, b));
                    }
                    lemma_offset_2d_bounds(dist as int, width as int);
                }
                let row = ((dist as usize) / width) as i32;
                assert(row as int == (dist as int) / (width as int));
                assert(row as int * width as int <= dist as int);
                let col = (dist as i32) - row * width as i32;
                let (col_s, row_s) = if col > width as i32 / 2 {
                    (col - width as i32, row + 1)
                } else {
                    (col, row)
                };
                let pri = priority_2d(row_s, col_s, width as i32);
                assert(pri as int == pri_2d_table(dist as int, width as int));
                if pri < best_pri || (pri == best_pri && dist < best_dist) {
                    best_pri = pri;
                    best_pos = pos;
                    best_dist = dist;
                }
            }
        }
        pos += 1;
    }
    proof {
        if best_dist != u16::MAX {
            assert(exists|q: int|
                0 <= q < 4096 && #[trigger] legal(input@, out, q, b) && pos_dist(out, q) != 0) by {
                assert(legal(input@, out, best_pos as int, b));
            }
        }
    }
    best_pos
}

/// Bounds on the (row, column) offset of a distance below 4096.
proof fn lemma_offset_2d_bounds(d: int, w: int)
    requires
        0 < d < 4096,
        0 < w <= i32::MAX,
    ensures
        0 <= d / w <= d,
        0 <= d - (d / w) * w < w,
        (d / w) * w <= d,
{
    vstd::arithmetic::div_mod::lemma_fundamental_div_mod(d, w);
    vstd::arithmetic::div_mod::lemma_div_pos_is_pos(d, w);
    vstd::arithmetic::div_mod::lemma_div_is_ordered_by_denominator(d, 1, w);
    vstd::arithmetic::div_mod::lemma_mod_bound(d, w);
    assert((d / w) * w == w * (d / w)) by (nonlinear_arith);
}

/// Greedy encoder of the M20 experiment: among the longest matches at a
/// non-zero distance it takes the lowest (row, column) table priority, then
/// the shortest distance.  The table needs the image width as soon as such a
/// match turns up, so a width of 0 serves only inputs where none does.
pub fn encode_2d_priority(input: &[u8], width: usize) -> (tokens: Vec<Token>)
    requires
        width <= i32::MAX,
        width == 0 ==> w0_safe(input@, Seq::empty(), input@.len() as nat),
    ensures
        forall|i: int| 0 <= i < tokens@.len() ==> #[trigger] token_wf(tokens@[i]),
        steps_follow(
            input@,
            tokens@,
            |out: Seq<u8>, t: Token| enc2dp_step(input@, width as int, out, t),
        ),
        decode(tokens@).len() == input@.len(),
        matches_legal(input@, tokens@) ==> decode(tokens@) == input@,
{
    let ghost step = |out: Seq<u8>, t: Token| enc2dp_step(input@, width as int, out, t);
    let n = input.len();
    let mut tokens: Vec<Token> = Vec::new();
    let mut ring = new_ring();
    let mut r: usize = INITIAL_RING_POS;
    let mut s: usize = 0;
    proof {
        lemma_mirrors_start();
        assert(input@.take(0) =~= Seq::<u8>::empty());
    }
    while s < n
        invariant
            n == input@.len(),
            width <= i32::MAX,
            width == 0 ==> w0_safe(input@, decode(tokens@), (n - s) as nat),
            mirrors(tokens@, ring@, r as int, s as int),
            ring@.len() == 4096,
            r < 4096,
            s <= n,
            matches_legal(input@, tokens@) ==> decode(tokens@) == input@.take(s as int),
            step == (|out: Seq<u8>, t: Token| enc2dp_step(input@, width as int, out, t)),
            steps_follow(input@, tokens@, step),
            forall|j: int| 0 <= j < tokens@.len() ==> #[trigger] token_wf(tokens@[j]),
        decreases n - s,
    {
        let ghost out = decode(tokens@);
        proof {
            lemma_best_len(input@, out);
            lemma_ring_of_len(out);
        }
        let best = longest_match_len(&ring, r, input, s);
        assert(best as int == best_len(input@, out));
        if best < MIN_MATCH_LEN {
            let t = Token::Literal(input[s]);
            proof {
                assert(enc2dp_step(input@, width as int, out, t));
                assert(step(out, t));
                lemma_steps_push(input@, tokens@, t, step);
                lemma_matches_legal_push(input@, tokens@, t);
                lemma_push_wf(tokens@, t);
                lemma_decode_push(tokens@, t);
                assert(out + expand(t, out) =~= out.push(input@[s as int]));
            }
            emit_token(&mut tokens, &mut ring, &mut r, &mut s, t);
            continue;
        }
        let chosen = pick_2d_priority(&ring, r, input, s, width, best, Ghost(out));
        let t = Token::Match { pos: chosen as u16, len: best as u8 };
        proof {
            assert(enc2dp_step(input@, width as int, out, t));
            assert(step(out, t));
            lemma_steps_push(input@, tokens@, t, step);
            lemma_matches_legal_push(input@, tokens@, t);
        }
        proof {
            lemma_push_wf(tokens@, t);
            lemma_decode_push(tokens@, t);
            if width == 0 {
                assert(chosen == 0);
                lemma_w0_safe_less(
                    input@,
                    out + expand(t, out),
                    (n - s - 1) as nat,
                    (n - s - best) as nat,
                );
            }
        }
        emit_token(&mut tokens, &mut ring, &mut r, &mut s, t);
    }
    assert(input@.take(n as int) =~= input@);
    tokens
}

} // verus!
