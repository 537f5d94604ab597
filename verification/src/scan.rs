//! Replaying a token stream against an idealised greedy encoder.
//!
//! The encoder keeps the next `min(18, remaining)` input bytes in the ring
//! from the head on (the lookahead), so a candidate match may run into the
//! bytes it is about to write.  At each step it scans every ring position
//! except the head, measures how far the (lookahead-extended) ring agrees with
//! the input, and keeps the longest length together with every position that
//! reaches it.  Optionally, a match may only start on a slot that has already
//! been written, and may only extend over written slots or the lookahead.
use vstd::prelude::*;

use crate::model::{copy_from, decode, head_of, lemma_copy_matches, lemma_decode_push, lemma_mod_add, lemma_mod_basics, lemma_mod_by, lemma_mod_offset, lemma_ring_of_concat, lemma_ring_of_len, match_cap, match_holds, ring_of, token_size, Token};
use crate::ring::{check_match_with_writeback, lemma_mask, new_ring, push_byte};
use crate::token::total_size;

verus! {

/// Whether a writer that started at 0xfee and has written `n` bytes has
/// written slot `m`.
pub open spec fn written_of(n: int, m: int) -> bool {
    n >= 4096 || (m - 0xfee) % 4096 < n
}

/// The written flags of all 4096 slots after `n` bytes.
pub open spec fn written_map(n: int) -> Seq<bool> {
    Seq::new(4096, |m: int| written_of(n, m))
}

/// The byte an encoder with head `r` sees at slot `idx` (modulo 4096) once
/// the lookahead of `target` is laid over the ring from the head on.
pub open spec fn virt_byte(ring: Seq<u8>, r: int, target: Seq<u8>, idx: int) -> u8 {
    let m = idx % 4096;
    let d = (m - r) % 4096;
    if d < match_cap(target) {
        target[d]
    } else {
        ring[m]
    }
}

/// Whether a match may extend over slot `idx`: always when `init_match`,
/// else only over the lookahead or a slot already written.
pub open spec fn ext_ok(written: Seq<bool>, r: int, target: Seq<u8>, init_match: bool, idx: int) -> bool {
    let m = idx % 4096;
    init_match || (m - r) % 4096 < match_cap(target) || written[m]
}

/// How far, from offset `k` on, a match starting at slot `p` keeps agreeing
/// with `target`.
pub open spec fn virt_run(
    ring: Seq<u8>,
    written: Seq<bool>,
    r: int,
    target: Seq<u8>,
    init_match: bool,
    p: int,
    k: int,
) -> int
    decreases match_cap(target) - k,
{
    if k < match_cap(target) && ext_ok(written, r, target, init_match, p + k) && virt_byte(
        ring,
        r,
        target,
        p + k,
    ) == target[k] {
        virt_run(ring, written, r, target, init_match, p, k + 1)
    } else {
        k
    }
}

/// Length of the match starting at slot `p`: 0 at the head, at a slot where
/// no match may start, or where the first byte differs.
pub open spec fn virt_len(
    ring: Seq<u8>,
    written: Seq<bool>,
    r: int,
    target: Seq<u8>,
    init_match: bool,
    p: int,
) -> int {
    if p == r || match_cap(target) == 0 || !(init_match || written[p]) || virt_byte(
        ring,
        r,
        target,
        p,
    ) != target[0] {
        0
    } else {
        virt_run(ring, written, r, target, init_match, p, 1)
    }
}

/// The longest `virt_len` over the slots `0..n`.
pub open spec fn virt_max(
    ring: Seq<u8>,
    written: Seq<bool>,
    r: int,
    target: Seq<u8>,
    init_match: bool,
    n: int,
) -> int
    decreases n,
{
    if n <= 0 {
        0
    } else {
        let m = virt_max(ring, written, r, target, init_match, n - 1);
        let l = virt_len(ring, written, r, target, init_match, n - 1);
        if l > m {
            l
        } else {
            m
        }
    }
}

/// The longest match over the whole ring.
pub open spec fn virt_best(
    ring: Seq<u8>,
    written: Seq<bool>,
    r: int,
    target: Seq<u8>,
    init_match: bool,
) -> int {
    virt_max(ring, written, r, target, init_match, 4096)
}

/// The slots among `0..n`, in increasing order, whose match has length
/// `best`, when `best` is positive.
pub open spec fn virt_positions(
    ring: Seq<u8>,
    written: Seq<bool>,
    r: int,
    target: Seq<u8>,
    init_match: bool,
    best: int,
    n: int,
) -> Seq<usize>
    decreases n,
{
    if n <= 0 {
        Seq::empty()
    } else {
        let prev = virt_positions(ring, written, r, target, init_match, best, n - 1);
        if best > 0 && virt_len(ring, written, r, target, init_match, n - 1) == best {
            prev.push((n - 1) as usize)
        } else {
            prev
        }
    }
}

/// A run never passes the lookahead length.
pub proof fn lemma_virt_run_bound(
    ring: Seq<u8>,
    written: Seq<bool>,
    r: int,
    target: Seq<u8>,
    init_match: bool,
    p: int,
    k: int,
)
    requires
        k <= match_cap(target),
    ensures
        k <= virt_run(ring, written, r, target, init_match, p, k) <= match_cap(target),
    decreases match_cap(target) - k,
{
    if k < match_cap(target) {
        lemma_virt_run_bound(ring, written, r, target, init_match, p, k + 1);
    }
}

/// `virt_max` bounds every length and is reached.
pub proof fn lemma_virt_max(
    ring: Seq<u8>,
    written: Seq<bool>,
    r: int,
    target: Seq<u8>,
    init_match: bool,
    n: int,
)
    requires
        0 <= n,
    ensures
        0 <= virt_max(ring, written, r, target, init_match, n) <= match_cap(target),
        forall|p: int|
            0 <= p < n ==> #[trigger] virt_len(ring, written, r, target, init_match, p) <= virt_max(
                ring,
                written,
                r,
                target,
                init_match,
                n,
            ),
    decreases n,
{
    if n > 0 {
        lemma_virt_max(ring, written, r, target, init_match, n - 1);
        if virt_len(ring, written, r, target, init_match, n - 1) > 0 {
            lemma_virt_run_bound(ring, written, r, target, init_match, n - 1, 1);
        }
    }
}

/// No slot reaches a length above all lengths so far.
pub proof fn lemma_virt_positions_none(
    ring: Seq<u8>,
    written: Seq<bool>,
    r: int,
    target: Seq<u8>,
    init_match: bool,
    best: int,
    n: int,
)
    requires
        0 <= n,
        forall|q: int| 0 <= q < n ==> #[trigger] virt_len(ring, written, r, target, init_match, q) < best,
    ensures
        virt_positions(ring, written, r, target, init_match, best, n) == Seq::<usize>::empty(),
    decreases n,
{
    if n > 0 {
        lemma_virt_positions_none(ring, written, r, target, init_match, best, n - 1);
    }
}

/// A slot is listed exactly when its match reaches `best > 0`; every listed
/// slot lies below `n`.
pub proof fn lemma_virt_positions(
    ring: Seq<u8>,
    written: Seq<bool>,
    r: int,
    target: Seq<u8>,
    init_match: bool,
    best: int,
    n: int,
)
    requires
        0 <= n <= 4096,
    ensures
        forall|i: int|
            #![trigger virt_positions(ring, written, r, target, init_match, best, n)[i]]
            0 <= i < virt_positions(ring, written, r, target, init_match, best, n).len() ==> {
                let q = virt_positions(ring, written, r, target, init_match, best, n)[i] as int;
                &&& q < n
                &&& best > 0
                &&& virt_len(ring, written, r, target, init_match, q) == best
            },
        forall|q: int|
            #![trigger virt_len(ring, written, r, target, init_match, q)]
            0 <= q < n && best > 0 && virt_len(ring, written, r, target, init_match, q) == best
                ==> virt_positions(ring, written, r, target, init_match, best, n).contains(q as usize),
    decreases n,
{
    if n > 0 {
        lemma_virt_positions(ring, written, r, target, init_match, best, n - 1);
        let prev = virt_positions(ring, written, r, target, init_match, best, n - 1);
        let cur = virt_positions(ring, written, r, target, init_match, best, n);
        if best > 0 && virt_len(ring, written, r, target, init_match, n - 1) == best {
            assert(cur == prev.push((n - 1) as usize));
            assert(cur[prev.len() as int] == (n - 1) as usize);
            assert forall|q: int|
                0 <= q < n && best > 0 && #[trigger] virt_len(ring, written, r, target, init_match, q)
                    == best implies cur.contains(q as usize) by {
                if q < n - 1 {
                    assert(prev.contains(q as usize));
                    let i = choose|i: int| 0 <= i < prev.len() && prev[i] == q as usize;
                    assert(cur[i] == q as usize);
                } else {
                    assert(cur[prev.len() as int] == q as usize);
                }
            }
        } else {
            assert(cur == prev);
        }
    }
}

/// The byte the encoder sees at slot `idx`, as `virt_byte` describes it.
fn virt_at(ring: &[u8], r: usize, input: &[u8], s: usize, cap: usize, idx: usize) -> (b: u8)
    requires
        ring@.len() == 4096,
        r < 4096,
        s <= input@.len(),
        cap as int == match_cap(input@.skip(s as int)),
        idx < 8192,
    ensures
        b == virt_byte(ring@, r as int, input@.skip(s as int), idx as int),
{
    proof {
        lemma_mask(idx);
    }
    let m = idx & 0x0fff;
    let d = (m + 0x1000 - r) & 0x0fff;
    proof {
        lemma_mask((m + 0x1000 - r) as usize);
        lemma_mod_add(4096, m - r);
        lemma_mod_by(4096, 1, 0);
    }
    let n = input.len();
    assert(cap <= n - s);
    if d < cap {
        input[s + d]
    } else {
        ring[m]
    }
}

/// Whether a match may extend over slot `idx`, as `ext_ok` describes it.
fn ext_ok_at(
    written: &[bool],
    r: usize,
    input: &[u8],
    s: usize,
    cap: usize,
    init_match: bool,
    idx: usize,
) -> (ok: bool)
    requires
        written@.len() == 4096,
        r < 4096,
        s <= input@.len(),
        cap as int == match_cap(input@.skip(s as int)),
        idx < 8192,
    ensures
        ok == ext_ok(written@, r as int, input@.skip(s as int), init_match, idx as int),
{
    if init_match {
        return true;
    }
    proof {
        lemma_mask(idx);
    }
    let m = idx & 0x0fff;
    let d = (m + 0x1000 - r) & 0x0fff;
    proof {
        lemma_mask((m + 0x1000 - r) as usize);
        lemma_mod_add(4096, m - r);
        lemma_mod_by(4096, 1, 0);
    }
    d < cap || written[m]
}

/// The longest match over the ring for `input[s..]` and, in increasing order,
/// every slot that reaches it (none when the longest is 0).
pub fn naive_max_match(
    ring: &[u8],
    written: &[bool],
    r: usize,
    input: &[u8],
    s: usize,
    init_match: bool,
) -> (res: (usize, Vec<usize>))
    requires
        ring@.len() == 4096,
        written@.len() == 4096,
        r < 4096,
        s <= input@.len(),
    ensures
        res.0 as int == virt_best(ring@, written@, r as int, input@.skip(s as int), init_match),
        res.1@ == virt_positions(
            ring@,
            written@,
            r as int,
            input@.skip(s as int),
            init_match,
            res.0 as int,
            4096,
        ),
        res.0 <= 18,
{
    let ghost target = input@.skip(s as int);
    let rest = input.len() - s;
    let cap = if rest < 18 {
        rest
    } else {
        18
    };
    assert(cap as int == match_cap(target));
    assert(cap <= input@.len() - s);
    let mut best: usize = 0;
    let mut positions: Vec<usize> = Vec::new();
    let mut p: usize = 0;
    while p < 4096
        invariant
            ring@.len() == 4096,
            written@.len() == 4096,
            r < 4096,
            s <= input@.len(),
            target == input@.skip(s as int),
            cap as int == match_cap(target),
            cap <= 18,
            cap <= input@.len() - s,
            p <= 4096,
            best as int == virt_max(ring@, written@, r as int, target, init_match, p as int),
            best <= cap,
            positions@ == virt_positions(
                ring@,
                written@,
                r as int,
                target,
                init_match,
                best as int,
                p as int,
            ),
        decreases 4096 - p,
    {
        proof {
            lemma_virt_max(ring@, written@, r as int, target, init_match, p as int);
        }
        let len: usize = if p == r || cap == 0 || !(init_match || written[p]) || virt_at(
            ring,
            r,
            input,
            s,
            cap,
            p,
        ) != input[s] {
            0
        } else {
            let mut len: usize = 1;
            while len < cap && ext_ok_at(written, r, input, s, cap, init_match, p + len) && virt_at(
                ring,
                r,
                input,
                s,
                cap,
                p + len,
            ) == input[s + len]
                invariant
                    ring@.len() == 4096,
                    written@.len() == 4096,
                    r < 4096,
                    p < 4096,
                    s <= input@.len(),
                    target == input@.skip(s as int),
                    cap as int == match_cap(target),
                    cap <= 18,
                    cap <= input@.len() - s,
                    input@.len() <= usize::MAX,
                    1 <= len <= cap,
                    virt_run(ring@, written@, r as int, target, init_match, p as int, 1) == virt_run(
                        ring@,
                        written@,
                        r as int,
                        target,
                        init_match,
                        p as int,
                        len as int,
                    ),
                decreases cap - len,
            {
                len += 1;
            }
            len
        };
        assert(len as int == virt_len(ring@, written@, r as int, target, init_match, p as int));
        proof {
            if len > 0 {
                lemma_virt_run_bound(ring@, written@, r as int, target, init_match, p as int, 1);
            }
        }
        if len > best {
            proof {
                lemma_virt_positions_none(
                    ring@,
                    written@,
                    r as int,
                    target,
                    init_match,
                    len as int,
                    p as int,
                );
            }
            best = len;
            positions = Vec::new();
            positions.push(p);
            proof {
                assert(virt_positions(
                    ring@,
                    written@,
                    r as int,
                    target,
                    init_match,
                    best as int,
                    p as int,
                ) == Seq::<usize>::empty());
                assert(positions@ =~= Seq::<usize>::empty().push(p));
            }
        } else if len == best && best > 0 {
            positions.push(p);
        }
        p += 1;
    }
    (best, positions)
}


/// The checks a replay applies besides the greedy ones.
#[derive(Clone, Copy, Debug, PartialEq, Eq, Structural)]
pub struct ScanRules {
    /// A literal is acceptable while the longest match is at most this long.
    pub threshold: usize,
    /// Whether a match may start on (and extend over) a slot never written.
    pub init_match: bool,
    /// Whether a literal is also acceptable when the longest match one byte
    /// later is longer still.
    pub lazy: bool,
    /// Whether a literal must carry the input byte.
    pub literal_must_match: bool,
    /// Whether a match, copied byte by byte as a decoder copies it, must give
    /// the input bytes it stands for.
    pub content_must_match: bool,
}

/// Why a replay stopped.
#[derive(Clone, Copy, Debug, PartialEq, Eq, Structural)]
pub enum FailReason {
    /// A token came after the whole input had been produced.
    InputExhausted,
    /// A literal where a match longer than the threshold was available.
    LiteralWithLongerMatch,
    /// A literal whose byte is not the input byte.
    LiteralMismatch,
    /// A match shorter or longer than the longest one.
    MatchNotLongest,
    /// A match from a position that does not reach the longest length.
    MatchPosNotBest,
    /// A match that, copied as a decoder copies it, does not give the input.
    MatchContentMismatch,
    /// The tokens ended before the whole input had been produced.
    NotFullyConsumed,
}

/// The longest match for the replay after it has written `w`.
#[verifier::opaque]
pub open spec fn scan_best(input: Seq<u8>, w: Seq<u8>, init_match: bool) -> int {
    virt_best(
        ring_of(w),
        written_map(w.len() as int),
        head_of(w.len() as int),
        input.skip(w.len() as int),
        init_match,
    )
}

/// The positions reaching the longest match after the replay has written `w`.
#[verifier::opaque]
pub open spec fn scan_positions(input: Seq<u8>, w: Seq<u8>, init_match: bool) -> Seq<usize> {
    virt_positions(
        ring_of(w),
        written_map(w.len() as int),
        head_of(w.len() as int),
        input.skip(w.len() as int),
        init_match,
        scan_best(input, w, init_match),
        4096,
    )
}

/// One step of a replay that has written `w`: the bytes written after the
/// token `t`, or why the token is refused.
pub open spec fn scan_step(input: Seq<u8>, w: Seq<u8>, t: Token, rules: ScanRules) -> Result<
    Seq<u8>,
    FailReason,
> {
    let pos = w.len() as int;
    if pos >= input.len() {
        Err(FailReason::InputExhausted)
    } else {
        let best = scan_best(input, w, rules.init_match);
        match t {
            Token::Literal(b) => {
                let lazy_ok = rules.lazy && scan_best(input, w.push(b), rules.init_match) > best;
                if best > rules.threshold && !lazy_ok {
                    Err(FailReason::LiteralWithLongerMatch)
                } else if rules.literal_must_match && input[pos] != b {
                    Err(FailReason::LiteralMismatch)
                } else {
                    Ok(w.push(b))
                }
            },
            Token::Match { pos: p, len: l } => {
                if l as int != best {
                    Err(FailReason::MatchNotLongest)
                } else if !scan_positions(input, w, rules.init_match).contains(p as usize) {
                    Err(FailReason::MatchPosNotBest)
                } else if rules.content_must_match && !match_holds(
                    ring_of(w),
                    head_of(pos),
                    p as int,
                    input.skip(pos),
                    l as int,
                ) {
                    Err(FailReason::MatchContentMismatch)
                } else {
                    Ok(w + input.subrange(pos, pos + l))
                }
            },
        }
    }
}

/// The bytes written after the first `k` tokens, or `None` once a token has
/// been refused.
pub open spec fn scan_prefix(input: Seq<u8>, leaf: Seq<Token>, rules: ScanRules, k: int) -> Option<
    Seq<u8>,
>
    decreases k,
{
    if k <= 0 {
        Some(Seq::empty())
    } else {
        match scan_prefix(input, leaf, rules, k - 1) {
            Some(w) => match scan_step(input, w, leaf[k - 1], rules) {
                Ok(w2) => Some(w2),
                Err(_) => None,
            },
            None => None,
        }
    }
}

/// Where and why a replay stopped, with what the encoder saw there.
#[derive(Clone, Copy, Debug, PartialEq, Eq, Structural)]
pub struct ScanStop {
    /// Index of the refused token.
    pub index: usize,
    pub reason: FailReason,
    /// The longest match at that point (0 when the input was exhausted).
    pub best: usize,
    /// How many positions reach it.
    pub n_positions: usize,
    /// For a literal refused or let through while a longer match was
    /// available: the longest match one byte later.
    pub next_best: usize,
    /// Input bytes produced before the refused token.
    pub pos: usize,
}

/// The result of a replay: where it stopped, if it did, and how many input
/// bytes the accepted tokens produced.
#[derive(Clone, Copy, Debug, PartialEq, Eq, Structural)]
pub struct ScanOutcome {
    pub stop: Option<ScanStop>,
    pub consumed: usize,
}

/// `st` describes the refusal of token `t` by a replay that has written `w`.
pub open spec fn stop_at(input: Seq<u8>, w: Seq<u8>, t: Token, rules: ScanRules, st: ScanStop) -> bool {
    &&& scan_step(input, w, t, rules) == Err::<Seq<u8>, FailReason>(st.reason)
    &&& st.pos == w.len()
    &&& st.best as int == (if st.reason == FailReason::InputExhausted {
        0
    } else {
        scan_best(input, w, rules.init_match)
    })
    &&& st.n_positions as int == (if st.reason == FailReason::InputExhausted {
        0
    } else {
        scan_positions(input, w, rules.init_match).len() as int
    })
    &&& st.next_best as int == (match t {
        Token::Literal(b) => if st.reason != FailReason::InputExhausted && st.best > rules.threshold {
            scan_best(input, w.push(b), rules.init_match)
        } else {
            0
        },
        Token::Match { .. } => 0,
    })
}

/// `st` describes the first refused token of the replay.
pub open spec fn stop_describes(input: Seq<u8>, leaf: Seq<Token>, rules: ScanRules, st: ScanStop) -> bool {
    let wk = scan_prefix(input, leaf, rules, st.index as int);
    &&& st.index < leaf.len()
    &&& wk is Some
    &&& stop_at(input, wk->0, leaf[st.index as int], rules, st)
}

/// Writing one more byte marks its slot as written.
pub proof fn lemma_written_step(n: int)
    requires
        0 <= n,
    ensures
        written_map(n + 1) == written_map(n).update(head_of(n), true),
{
    lemma_mod_basics(0xfee + n);
    assert forall|m: int| 0 <= m < 4096 implies #[trigger] written_map(n + 1)[m] == written_map(
        n,
    ).update(head_of(n), true)[m] by {
        lemma_mod_basics(m - 0xfee);
        if n < 4096 {
            lemma_mod_offset(m, 0xfee, n);
        }
    }
    assert(written_map(n + 1) =~= written_map(n).update(head_of(n), true));
}

/// The best match never passes the lookahead, and is 0 without one.
pub proof fn lemma_scan_best_bound(input: Seq<u8>, w: Seq<u8>, init_match: bool)
    ensures
        0 <= scan_best(input, w, init_match) <= match_cap(input.skip(w.len() as int)),
{
    reveal(scan_best);
    lemma_virt_max(
        ring_of(w),
        written_map(w.len() as int),
        head_of(w.len() as int),
        input.skip(w.len() as int),
        init_match,
        4096,
    );
}

/// All-false written flags.
fn fresh_written() -> (v: Vec<bool>)
    ensures
        v@ == written_map(0),
{
    let mut v: Vec<bool> = Vec::new();
    let mut i: usize = 0;
    while i < 4096
        invariant
            i <= 4096,
            v@.len() == i,
            forall|j: int| 0 <= j < i ==> v@[j] == false,
        decreases 4096 - i,
    {
        v.push(false);
        i += 1;
    }
    assert forall|m: int| 0 <= m < 4096 implies #[trigger] written_map(0)[m] == v@[m] by {
        lemma_mod_basics(m - 0xfee);
    }
    assert(v@ =~= written_map(0));
    v
}

/// Whether `v` lists `x`.
fn contains_pos(v: &Vec<usize>, x: usize) -> (b: bool)
    ensures
        b == v@.contains(x),
{
    let mut i: usize = 0;
    while i < v.len()
        invariant
            i <= v@.len(),
            forall|j: int| 0 <= j < i ==> v@[j] != x,
        decreases v@.len() - i,
    {
        if v[i] == x {
            return true;
        }
        i += 1;
    }
    false
}

/// Writes one byte at the head, marking its slot as written.
fn write_byte(ring: &mut Vec<u8>, written: &mut Vec<bool>, r: &mut usize, b: u8, Ghost(w): Ghost<Seq<u8>>)
    requires
        old(ring)@ == ring_of(w),
        old(written)@ == written_map(w.len() as int),
        *old(r) as int == head_of(w.len() as int),
    ensures
        final(ring)@ == ring_of(w.push(b)),
        final(written)@ == written_map(w.len() + 1 as int),
        *final(r) as int == head_of(w.len() + 1 as int),
{
    proof {
        lemma_ring_of_len(w);
        lemma_mod_basics(0xfee + w.len() as int);
        lemma_written_step(w.len() as int);
        lemma_ring_of_concat(w, seq![b]);
        assert(w + seq![b] =~= w.push(b));
        lemma_mod_add(0xfee + w.len() as int, 1);
    }
    written.set(*r, true);
    push_byte(ring, r, b);
}


/// Writes `input[s..s + l]` at the head, marking the slots as written.
fn write_input(
    ring: &mut Vec<u8>,
    written: &mut Vec<bool>,
    r: &mut usize,
    input: &[u8],
    s: usize,
    l: usize,
    Ghost(w): Ghost<Seq<u8>>,
)
    requires
        old(ring)@ == ring_of(w),
        old(written)@ == written_map(w.len() as int),
        *old(r) as int == head_of(w.len() as int),
        s == w.len(),
        s + l <= input@.len(),
    ensures
        final(ring)@ == ring_of(w + input@.subrange(s as int, s + l)),
        final(written)@ == written_map(s + l),
        *final(r) as int == head_of(s + l),
{
    let n = input.len();
    let mut i: usize = 0;
    let ghost mut cur = w;
    assert(cur =~= w + input@.subrange(s as int, s as int));
    while i < l
        invariant
            n == input@.len(),
            w.len() == s,
            s + l <= input@.len(),
            i <= l,
            cur == w + input@.subrange(s as int, s + i),
            ring@ == ring_of(cur),
            written@ == written_map(cur.len() as int),
            *r as int == head_of(cur.len() as int),
        decreases l - i,
    {
        let b = input[s + i];
        write_byte(ring, written, r, b, Ghost(cur));
        proof {
            assert(cur.push(b) =~= w + input@.subrange(s as int, s + i + 1));
            cur = cur.push(b);
        }
        i += 1;
    }
}

/// One replay step for token `t` (index `idx`) after `w` has been written:
/// either the state moves on to what `scan_step` gives, or the refusal.
fn scan_one(
    ring: &mut Vec<u8>,
    written: &mut Vec<bool>,
    r: &mut usize,
    pos: &mut usize,
    input: &[u8],
    t: Token,
    rules: ScanRules,
    idx: usize,
    Ghost(w): Ghost<Seq<u8>>,
) -> (res: Option<ScanStop>)
    requires
        old(ring)@ == ring_of(w),
        old(written)@ == written_map(w.len() as int),
        *old(r) as int == head_of(w.len() as int),
        *old(pos) == w.len(),
        *old(pos) <= input@.len(),
    ensures
        match res {
            Some(st) => st.index == idx && stop_at(input@, w, t, rules, st) && *final(pos) == *old(pos),
            None => {
                let w2 = scan_step(input@, w, t, rules)->Ok_0;
                &&& scan_step(input@, w, t, rules) is Ok
                &&& final(ring)@ == ring_of(w2)
                &&& final(written)@ == written_map(w2.len() as int)
                &&& *final(r) as int == head_of(w2.len() as int)
                &&& *final(pos) == w2.len()
                &&& *final(pos) <= input@.len()
            },
        },
{
    proof {
        lemma_ring_of_len(w);
        lemma_mod_basics(0xfee + w.len() as int);
    }
    let p0 = *pos;
    if p0 >= input.len() {
        return Some(
            ScanStop {
                index: idx,
                reason: FailReason::InputExhausted,
                best: 0,
                n_positions: 0,
                next_best: 0,
                pos: p0,
            },
        );
    }
    let (best, positions) = naive_max_match(ring, written, *r, input, p0, rules.init_match);
    proof {
        reveal(scan_best);
        reveal(scan_positions);
    }
    assert(best as int == scan_best(input@, w, rules.init_match));
    assert(positions@ == scan_positions(input@, w, rules.init_match));
    proof {
        lemma_scan_best_bound(input@, w, rules.init_match);
    }
    match t {
        Token::Literal(b) => {
            let long = best > rules.threshold;
            let mut next_best: usize = 0;
            if long {
                write_byte(ring, written, r, b, Ghost(w));
                proof {
                    lemma_ring_of_len(w.push(b));
                    lemma_mod_basics(0xfee + w.len() as int + 1);
                }
                let (nb, _) = naive_max_match(ring, written, *r, input, p0 + 1, rules.init_match);
                next_best = nb;
                assert(next_best as int == scan_best(input@, w.push(b), rules.init_match));
            }
            let lazy_ok = rules.lazy && next_best > best;
            if long && !lazy_ok {
                return Some(
                    ScanStop {
                        index: idx,
                        reason: FailReason::LiteralWithLongerMatch,
                        best,
                        n_positions: positions.len(),
                        next_best,
                        pos: p0,
                    },
                );
            }
            if rules.literal_must_match && input[p0] != b {
                return Some(
                    ScanStop {
                        index: idx,
                        reason: FailReason::LiteralMismatch,
                        best,
                        n_positions: positions.len(),
                        next_best,
                        pos: p0,
                    },
                );
            }
            if !long {
                write_byte(ring, written, r, b, Ghost(w));
            }
            *pos = p0 + 1;
            None
        },
        Token::Match { pos: p, len: l } => {
            let lu = l as usize;
            let pu = p as usize;
            if lu != best {
                return Some(
                    ScanStop {
                        index: idx,
                        reason: FailReason::MatchNotLongest,
                        best,
                        n_positions: positions.len(),
                        next_best: 0,
                        pos: p0,
                    },
                );
            }
            if !contains_pos(&positions, pu) {
                return Some(
                    ScanStop {
                        index: idx,
                        reason: FailReason::MatchPosNotBest,
                        best,
                        n_positions: positions.len(),
                        next_best: 0,
                        pos: p0,
                    },
                );
            }
            if rules.content_must_match {
                proof {
                    lemma_virt_positions(
                        ring_of(w),
                        written_map(w.len() as int),
                        head_of(w.len() as int),
                        input@.skip(p0 as int),
                        rules.init_match,
                        best as int,
                        4096,
                    );
                    let i = choose|i: int| 0 <= i < positions@.len() && positions@[i] == pu;
                    assert(positions@[i] < 4096);
                }
            }
            if rules.content_must_match && !check_match_with_writeback(ring, *r, pu, input, p0, lu) {
                return Some(
                    ScanStop {
                        index: idx,
                        reason: FailReason::MatchContentMismatch,
                        best,
                        n_positions: positions.len(),
                        next_best: 0,
                        pos: p0,
                    },
                );
            }
            write_input(ring, written, r, input, p0, lu, Ghost(w));
            *pos = p0 + lu;
            None
        },
    }
}

/// Replays `leaf` against the encoder of `rules` over `input`: stops at the
/// first refused token, else reports how many input bytes the tokens produced.
pub fn scan_tokens(input: &[u8], leaf: &[Token], rules: ScanRules) -> (out: ScanOutcome)
    ensures
        match out.stop {
            Some(st) => stop_describes(input@, leaf@, rules, st) && out.consumed == st.pos,
            None => {
                &&& scan_prefix(input@, leaf@, rules, leaf@.len() as int) is Some
                &&& scan_prefix(input@, leaf@, rules, leaf@.len() as int)->0.len() == out.consumed
            },
        },
{
    let mut ring = new_ring();
    let mut written = fresh_written();
    let mut r: usize = 0x0fee;
    let mut pos: usize = 0;
    let ghost mut w: Seq<u8> = Seq::empty();
    let mut idx: usize = 0;
    proof {
        lemma_mod_by(0xfee, 0, 0xfee);
    }
    while idx < leaf.len()
        invariant
            idx <= leaf@.len(),
            ring@ == ring_of(w),
            written@ == written_map(w.len() as int),
            r as int == head_of(w.len() as int),
            pos == w.len(),
            pos <= input@.len(),
            scan_prefix(input@, leaf@, rules, idx as int) == Some(w),
        decreases leaf@.len() - idx,
    {
        let t = leaf[idx];
        match scan_one(&mut ring, &mut written, &mut r, &mut pos, input, t, rules, idx, Ghost(w)) {
            Some(st) => {
                return ScanOutcome { stop: Some(st), consumed: pos };
            },
            None => {
                proof {
                    w = scan_step(input@, w, t, rules)->Ok_0;
                }
            },
        }
        idx += 1;
    }
    ScanOutcome { stop: None, consumed: pos }
}


/// A match that the replay accepts, with its content check, produces the
/// next input bytes on a decoder that has emitted `w`: the check copies the
/// match byte by byte with write-back, as the decoder does.
pub proof fn lemma_accepted_match(input: Seq<u8>, w: Seq<u8>, p: int, l: int, init_match: bool)
    requires
        w.len() < input.len(),
        0 <= p < 0x10000,
        l == scan_best(input, w, init_match),
        scan_positions(input, w, init_match).contains(p as usize),
        match_holds(ring_of(w), head_of(w.len() as int), p, input.skip(w.len() as int), l),
    ensures
        0 < l <= input.len() - w.len(),
        p < 4096,
        copy_from(ring_of(w), head_of(w.len() as int), p, l as nat) == input.subrange(
            w.len() as int,
            w.len() + l,
        ),
{
    reveal(scan_positions);
    let ring = ring_of(w);
    let target = input.skip(w.len() as int);
    lemma_ring_of_len(w);
    lemma_virt_positions(
        ring,
        written_map(w.len() as int),
        head_of(w.len() as int),
        target,
        init_match,
        l,
        4096,
    );
    let ps = scan_positions(input, w, init_match);
    let i = choose|i: int| 0 <= i < ps.len() && ps[i] == p as usize;
    assert(ps[i] as int == p);
    lemma_scan_best_bound(input, w, init_match);
    lemma_copy_matches(ring, head_of(w.len() as int), p, target, l as nat);
    assert(target.take(l) =~= input.subrange(w.len() as int, w.len() + l));
}

/// A replay that checks literal bytes and match contents accepts only tokens
/// that decode to a prefix of the input: after `k` accepted tokens, the bytes
/// written are the decoding of those tokens and a prefix of the input.
pub proof fn lemma_scan_decodes(input: Seq<u8>, leaf: Seq<Token>, rules: ScanRules, k: int)
    requires
        rules.literal_must_match,
        rules.content_must_match,
        0 <= k <= leaf.len(),
        scan_prefix(input, leaf, rules, k) is Some,
    ensures
        scan_prefix(input, leaf, rules, k)->0 == decode(leaf.take(k)),
        scan_prefix(input, leaf, rules, k)->0 == input.take(
            scan_prefix(input, leaf, rules, k)->0.len() as int,
        ),
        scan_prefix(input, leaf, rules, k)->0.len() <= input.len(),
    decreases k,
{
    if k == 0 {
        assert(leaf.take(0) =~= Seq::<Token>::empty());
        assert(input.take(0) =~= Seq::<u8>::empty());
    } else {
        lemma_scan_decodes(input, leaf, rules, k - 1);
        let w = scan_prefix(input, leaf, rules, k - 1)->0;
        let t = leaf[k - 1];
        assert(leaf.take(k) =~= leaf.take(k - 1).push(t));
        lemma_decode_push(leaf.take(k - 1), t);
        let pos = w.len() as int;
        match t {
            Token::Literal(b) => {
                assert(input.take(pos + 1) =~= input.take(pos).push(b));
            },
            Token::Match { pos: p, len: l } => {
                lemma_accepted_match(input, w, p as int, l as int, rules.init_match);
                assert(input.take(pos + l) =~= input.take(pos) + input.subrange(pos, pos + l));
            },
        }
    }
}


/// An accepted token writes as many bytes as it stands for, and an
/// accepted match comes from a ring slot.
pub proof fn lemma_step_ok(input: Seq<u8>, w: Seq<u8>, t: Token, rules: ScanRules)
    requires
        scan_step(input, w, t, rules) is Ok,
    ensures
        scan_step(input, w, t, rules)->Ok_0.len() == w.len() + token_size(t),
        t matches Token::Match { pos: p, .. } ==> p < 4096,
{
    let res = scan_step(input, w, t, rules);
    if let Token::Match { pos: p, len: l } = t {
        reveal(scan_positions);
        let best = scan_best(input, w, rules.init_match);
        lemma_virt_positions(
            ring_of(w),
            written_map(w.len() as int),
            head_of(w.len() as int),
            input.skip(w.len() as int),
            rules.init_match,
            best,
            4096,
        );
        let ps = scan_positions(input, w, rules.init_match);
        assert(ps.contains(p as usize));
        let i = choose|i: int| 0 <= i < ps.len() && ps[i] == p as usize;
        assert(ps[i] < 4096);
        lemma_scan_best_bound(input, w, rules.init_match);
        assert(res->Ok_0.len() == w.len() + l);
    } else {
        assert(res->Ok_0.len() == w.len() + 1);
    }
}

/// The bytes written after `k` accepted tokens number their total size, and
/// every earlier prefix was accepted too, its matches coming from ring slots.
pub proof fn lemma_scan_prefix_len(input: Seq<u8>, leaf: Seq<Token>, rules: ScanRules, k: int)
    requires
        0 <= k <= leaf.len(),
        scan_prefix(input, leaf, rules, k) is Some,
    ensures
        scan_prefix(input, leaf, rules, k)->0.len() == total_size(leaf.take(k)),
        forall|j: int|
            #![trigger leaf[j]]
            0 <= j < k ==> scan_prefix(input, leaf, rules, j) is Some && (leaf[j] matches Token::Match {
                pos: p,
                ..
            } ==> p < 4096),
    decreases k,
{
    if k > 0 {
        lemma_scan_prefix_len(input, leaf, rules, k - 1);
        let w = scan_prefix(input, leaf, rules, k - 1)->0;
        assert(leaf.take(k).drop_last() =~= leaf.take(k - 1));
        assert(leaf.take(k).last() == leaf[k - 1]);
        lemma_step_ok(input, w, leaf[k - 1], rules);
    }
}


/// Once a token has been refused, no longer prefix is accepted.
pub proof fn lemma_scan_stays_stopped(
    input: Seq<u8>,
    leaf: Seq<Token>,
    rules: ScanRules,
    st: ScanStop,
    k: int,
)
    requires
        stop_describes(input, leaf, rules, st),
        st.index < k,
    ensures
        scan_prefix(input, leaf, rules, k) is None,
    decreases k,
{
    if k > st.index + 1 {
        lemma_scan_stays_stopped(input, leaf, rules, st, k - 1);
    }
}

} // verus!
