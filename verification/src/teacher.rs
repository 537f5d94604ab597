//! Replaying a stream by "teacher forcing": literals write the input byte,
//! matches copy from the ring as a decoder does, and every written slot
//! records the input position it was written at (its tick, `u32::MAX` for a
//! slot never written).  Also plain (non-overlapping) match measures over
//! such a ring and the classes of a divergence.
use vstd::prelude::*;

use crate::firstdiff::MatchCandidate;
use crate::model::{copy_from, initial_ring, lemma_copy_len, lemma_mod_basics, lemma_ring_after_len, ring_after, Token};
use crate::ring::{copy_match, lemma_mask, new_ring};

verus! {

/// The state of a teacher-forced replay.
pub struct TState {
    pub ring: Seq<u8>,
    pub tick: Seq<u32>,
    pub r: int,
    pub pos: int,
}

/// The ticks after `n` bytes are written from slot `r` on, the first at
/// input position `pos`.
pub open spec fn ticks_after(tick: Seq<u32>, r: int, pos: int, n: int) -> Seq<u32>
    decreases n,
{
    if n <= 0 {
        tick
    } else {
        ticks_after(tick, r, pos, n - 1).update((r + n - 1) % 4096, (pos + n - 1) as u32)
    }
}

/// One token of a teacher-forced replay: nothing once the input is used up;
/// a literal writes the input byte; a match copies up to its length (no
/// further than the input's end) from its position taken modulo 4096.
pub open spec fn teach_step(st: TState, t: Token, input: Seq<u8>) -> TState {
    match t {
        Token::Literal(_) => if st.pos < input.len() {
            TState {
                ring: st.ring.update(st.r, input[st.pos]),
                tick: st.tick.update(st.r, st.pos as u32),
                r: (st.r + 1) % 4096,
                pos: st.pos + 1,
            }
        } else {
            st
        },
        Token::Match { pos: p, len: l } => {
            let n = if st.pos + l <= input.len() {
                l as int
            } else {
                input.len() - st.pos
            };
            let bytes = copy_from(st.ring, st.r, p as int % 4096, n as nat);
            TState {
                ring: ring_after(st.ring, st.r, bytes),
                tick: ticks_after(st.tick, st.r, st.pos, n),
                r: (st.r + n) % 4096,
                pos: st.pos + n,
            }
        },
    }
}

/// The start of a replay: spaces, nothing written, head at 0xfee.
pub open spec fn teach_start() -> TState {
    TState { ring: initial_ring(), tick: Seq::new(4096, |i: int| u32::MAX), r: 0xfee, pos: 0 }
}

/// The replay after the first `k` tokens.
pub open spec fn teach_state(ts: Seq<Token>, input: Seq<u8>, k: int) -> TState
    decreases k,
{
    if k <= 0 {
        teach_start()
    } else {
        teach_step(teach_state(ts, input, k - 1), ts[k - 1], input)
    }
}

/// A replay state of the right shape.
pub open spec fn state_ok(st: TState, input_len: int) -> bool {
    &&& st.ring.len() == 4096
    &&& st.tick.len() == 4096
    &&& 0 <= st.r < 4096
    &&& 0 <= st.pos <= input_len
}

proof fn lemma_ticks_len(tick: Seq<u32>, r: int, pos: int, n: int)
    requires
        tick.len() == 4096,
    ensures
        ticks_after(tick, r, pos, n).len() == 4096,
    decreases n,
{
    if n > 0 {
        lemma_ticks_len(tick, r, pos, n - 1);
        lemma_mod_basics(r + n - 1);
    }
}

/// Applies one token to a teacher-forced replay.
fn teach_apply(
    ring: &mut Vec<u8>,
    tick: &mut Vec<u32>,
    r: &mut usize,
    pos: &mut usize,
    t: Token,
    input: &[u8],
)
    requires
        state_ok(TState { ring: old(ring)@, tick: old(tick)@, r: *old(r) as int, pos: *old(pos) as int }, input@.len() as int),
    ensures
        ({
            let st = teach_step(
                TState { ring: old(ring)@, tick: old(tick)@, r: *old(r) as int, pos: *old(pos) as int },
                t,
                input@,
            );
            &&& final(ring)@ == st.ring
            &&& final(tick)@ == st.tick
            &&& *final(r) as int == st.r
            &&& *final(pos) as int == st.pos
            &&& state_ok(st, input@.len() as int)
        }),
{
    let n_in = input.len();
    match t {
        Token::Literal(_) => {
            if *pos < n_in {
                proof {
                    lemma_mask((*r + 1) as usize);
                }
                ring.set(*r, input[*pos]);
                tick.set(*r, #[verifier::truncate] (*pos as u32));
                *r = (*r + 1) & 0x0fff;
                *pos = *pos + 1;
            }
        },
        Token::Match { pos: p, len: l } => {
            let n: usize = if (l as usize) <= n_in - *pos {
                l as usize
            } else {
                n_in - *pos
            };
            let r0 = *r;
            let pos0 = *pos;
            let ghost ring0 = ring@;
            let ghost tick0 = tick@;
            proof {
                lemma_mask(p as usize);
            }
            copy_match(ring, r, (p as usize) & 0x0fff, n);
            let mut j: usize = 0;
            while j < n
                invariant
                    tick0.len() == 4096,
                    r0 < 4096,
                    pos0 + n <= n_in,
                    j <= n,
                    n <= 255,
                    tick@ == ticks_after(tick0, r0 as int, pos0 as int, j as int),
                    tick@.len() == 4096,
                decreases n - j,
            {
                proof {
                    lemma_mask((r0 + j) as usize);
                }
                tick.set((r0 + j) & 0x0fff, #[verifier::truncate] ((pos0 + j) as u32));
                j += 1;
            }
            *pos = pos0 + n;
            proof {
                lemma_copy_len(ring0, r0 as int, (p as int) % 4096, n as nat);
                lemma_ring_after_len(ring0, r0 as int, copy_from(ring0, r0 as int, (p as int) % 4096, n as nat));
                lemma_mod_basics(r0 + n);
            }
        },
    }
}

/// The ring, ticks, head and input position after the first
/// `min(target_ti, tokens.len())` tokens.
pub fn build_state(tokens: &[Token], ring_input: &[u8], target_ti: usize) -> (res: (Vec<u8>, Vec<u32>, usize, usize))
    ensures
        ({
            let m = if target_ti < tokens@.len() {
                target_ti as int
            } else {
                tokens@.len() as int
            };
            let st = teach_state(tokens@, ring_input@, m);
            &&& res.0@ == st.ring
            &&& res.1@ == st.tick
            &&& res.2 as int == st.r
            &&& res.3 as int == st.pos
        }),
{
    let (mut ring, mut tick, mut r, mut pos) = teach_init();
    let m = if target_ti < tokens.len() {
        target_ti
    } else {
        tokens.len()
    };
    let mut i: usize = 0;
    while i < m
        invariant
            m <= tokens@.len(),
            i <= m,
            ({
                let st = teach_state(tokens@, ring_input@, i as int);
                &&& ring@ == st.ring
                &&& tick@ == st.tick
                &&& r as int == st.r
                &&& pos as int == st.pos
                &&& state_ok(st, ring_input@.len() as int)
            }),
        decreases m - i,
    {
        teach_apply(&mut ring, &mut tick, &mut r, &mut pos, tokens[i], ring_input);
        i += 1;
    }
    (ring, tick, r, pos)
}

/// The state before the first token.
fn teach_init() -> (res: (Vec<u8>, Vec<u32>, usize, usize))
    ensures
        res.0@ == teach_start().ring,
        res.1@ == teach_start().tick,
        res.2 == 0xfee,
        res.3 == 0,
{
    let ring = new_ring();
    let mut tick: Vec<u32> = Vec::new();
    let mut i: usize = 0;
    while i < 4096
        invariant
            i <= 4096,
            tick@.len() == i,
            forall|j: int| 0 <= j < i ==> tick@[j] == u32::MAX,
        decreases 4096 - i,
    {
        tick.push(u32::MAX);
        i += 1;
    }
    assert(tick@ =~= teach_start().tick);
    (ring, tick, 0x0fee, 0)
}

/// A saved replay state.
pub struct Snapshot {
    pub ring: Vec<u8>,
    pub write_tick: Vec<u32>,
    pub r: usize,
}

/// The state before each token, with its input position.
pub fn build_snapshots(leaf_tokens: &[Token], ring_input: &[u8]) -> (out: Vec<(Snapshot, usize)>)
    ensures
        out@.len() == leaf_tokens@.len(),
        forall|k: int|
            0 <= k < out@.len() ==> {
                let st = teach_state(leaf_tokens@, ring_input@, k);
                &&& (#[trigger] out@[k]).0.ring@ == st.ring
                &&& out@[k].0.write_tick@ == st.tick
                &&& out@[k].0.r as int == st.r
                &&& out@[k].1 as int == st.pos
            },
{
    let (mut ring, mut tick, mut r, mut pos) = teach_init();
    let mut out: Vec<(Snapshot, usize)> = Vec::new();
    let n = leaf_tokens.len();
    let mut i: usize = 0;
    while i < n
        invariant
            n == leaf_tokens@.len(),
            i <= n,
            out@.len() == i,
            forall|k: int|
                0 <= k < i ==> {
                    let st = teach_state(leaf_tokens@, ring_input@, k);
                    &&& (#[trigger] out@[k]).0.ring@ == st.ring
                    &&& out@[k].0.write_tick@ == st.tick
                    &&& out@[k].0.r as int == st.r
                    &&& out@[k].1 as int == st.pos
                },
            ({
                let st = teach_state(leaf_tokens@, ring_input@, i as int);
                &&& ring@ == st.ring
                &&& tick@ == st.tick
                &&& r as int == st.r
                &&& pos as int == st.pos
                &&& state_ok(st, ring_input@.len() as int)
            }),
        decreases n - i,
    {
        out.push((Snapshot { ring: copy_vec_u8(&ring), write_tick: copy_vec_u32(&tick), r }, pos));
        teach_apply(&mut ring, &mut tick, &mut r, &mut pos, leaf_tokens[i], ring_input);
        i += 1;
    }
    out
}

fn copy_vec_u8(v: &Vec<u8>) -> (c: Vec<u8>)
    ensures
        c@ == v@,
{
    let mut c: Vec<u8> = Vec::new();
    let mut i: usize = 0;
    while i < v.len()
        invariant
            i <= v@.len(),
            c@ == v@.take(i as int),
        decreases v@.len() - i,
    {
        c.push(v[i]);
        i += 1;
        assert(c@ =~= v@.take(i as int));
    }
    assert(v@.take(v@.len() as int) =~= v@);
    c
}

fn copy_vec_u32(v: &Vec<u32>) -> (c: Vec<u32>)
    ensures
        c@ == v@,
{
    let mut c: Vec<u32> = Vec::new();
    let mut i: usize = 0;
    while i < v.len()
        invariant
            i <= v@.len(),
            c@ == v@.take(i as int),
        decreases v@.len() - i,
    {
        c.push(v[i]);
        i += 1;
        assert(c@ =~= v@.take(i as int));
    }
    assert(v@.take(v@.len() as int) =~= v@);
    c
}

/// A snapshot with one more literal applied: the input byte at `input_pos`
/// written at the head (when there is one), and the head moved on.
pub fn advance_one_literal(snap: &Snapshot, ring_input: &[u8], input_pos: usize) -> (out: Snapshot)
    requires
        snap.ring@.len() == 4096,
        snap.write_tick@.len() == 4096,
        snap.r < 4096,
    ensures
        out.ring@ == (if input_pos < ring_input@.len() {
            snap.ring@.update(snap.r as int, ring_input@[input_pos as int])
        } else {
            snap.ring@
        }),
        out.write_tick@ == (if input_pos < ring_input@.len() {
            snap.write_tick@.update(snap.r as int, input_pos as u32)
        } else {
            snap.write_tick@
        }),
        out.r as int == (snap.r + 1) % 4096,
{
    let mut ring = copy_vec_u8(&snap.ring);
    let mut tick = copy_vec_u32(&snap.write_tick);
    let r = snap.r;
    if input_pos < ring_input.len() {
        ring.set(r, ring_input[input_pos]);
        tick.set(r, #[verifier::truncate] (input_pos as u32));
    }
    proof {
        lemma_mask((r + 1) as usize);
    }
    Snapshot { ring, write_tick: tick, r: (r + 1) & 0x0fff }
}

/// How far, from offset `l` on, the ring from slot `pos` agrees with
/// `target` (at most `cap`), reading the ring as it is and, when
/// `req_written`, only over written slots.
pub open spec fn plain_run(
    ring: Seq<u8>,
    tick: Seq<u32>,
    target: Seq<u8>,
    req_written: bool,
    pos: int,
    l: int,
    cap: int,
) -> int
    decreases cap - l,
{
    if l < cap && (!req_written || tick[(pos + l) % 4096] != u32::MAX) && ring[(pos + l) % 4096]
        == target[l] {
        plain_run(ring, tick, target, req_written, pos, l + 1, cap)
    } else {
        l
    }
}

proof fn lemma_plain_run_bound(
    ring: Seq<u8>,
    tick: Seq<u32>,
    target: Seq<u8>,
    req_written: bool,
    pos: int,
    l: int,
    cap: int,
)
    requires
        l <= cap,
    ensures
        l <= plain_run(ring, tick, target, req_written, pos, l, cap) <= cap,
    decreases cap - l,
{
    if l < cap {
        lemma_plain_run_bound(ring, tick, target, req_written, pos, l + 1, cap);
    }
}

/// The length of the plain run from slot `pos` for `input[s..]`, at most 18.
fn run_at(ring: &[u8], tick: &[u32], input: &[u8], s: usize, cap: usize, req_written: bool, pos: usize) -> (l: usize)
    requires
        ring@.len() == 4096,
        tick@.len() == 4096,
        pos < 4096,
        cap <= 18,
        s + cap <= input@.len(),
    ensures
        l as int == plain_run(ring@, tick@, input@.skip(s as int), req_written, pos as int, 0, cap as int),
        l <= cap,
{
    let ghost target = input@.skip(s as int);
    let n = input.len();
    let mut l: usize = 0;
    proof {
        lemma_mask((pos + l) as usize);
        lemma_plain_run_bound(ring@, tick@, target, req_written, pos as int, 0, cap as int);
    }
    while l < cap && (!req_written || tick[(pos + l) & 0x0fff] != u32::MAX) && ring[(pos + l) & 0x0fff]
        == input[s + l]
        invariant
            n == input@.len(),
            ring@.len() == 4096,
            tick@.len() == 4096,
            pos < 4096,
            cap <= 18,
            s + cap <= input@.len(),
            target == input@.skip(s as int),
            l <= cap,
            ((pos + l) as usize) & 0x0fff == (pos + l) % 4096,
            plain_run(ring@, tick@, target, req_written, pos as int, 0, cap as int) == plain_run(
                ring@,
                tick@,
                target,
                req_written,
                pos as int,
                l as int,
                cap as int,
            ),
        decreases cap - l,
    {
        l += 1;
        proof {
            lemma_mask((pos + l) as usize);
        }
    }
    l
}

/// How many input bytes from `s` a match may cover: at most 18, none past
/// the end.
pub open spec fn run_cap(input_len: int, s: int) -> int {
    if s >= input_len {
        0
    } else if input_len - s < 18 {
        input_len - s
    } else {
        18
    }
}

/// The plain run from slot `p` for `input[s..]`.
pub open spec fn prun(ring: Seq<u8>, tick: Seq<u32>, input: Seq<u8>, s: int, req_written: bool, p: int) -> int {
    plain_run(ring, tick, input.skip(s), req_written, p, 0, run_cap(input.len() as int, s))
}

/// The longest plain match for `input[s..]` over the ring (at most 18,
/// optionally only over written slots); 0 when below 3 bytes or at the end
/// of the input.
pub fn max_match_len(ring: &[u8], write_tick: &[u32], input: &[u8], s: usize, require_written: bool) -> (best: usize)
    requires
        ring@.len() == 4096,
        write_tick@.len() == 4096,
    ensures
        best == 0 || best >= 3,
        forall|p: int|
            0 <= p < 4096 ==> (#[trigger] prun(ring@, write_tick@, input@, s as int, require_written, p) < 3
                || prun(ring@, write_tick@, input@, s as int, require_written, p) <= best),
        best > 0 ==> exists|p: int|
            0 <= p < 4096 && #[trigger] prun(ring@, write_tick@, input@, s as int, require_written, p) == best,
        best == 0 ==> forall|p: int|
            0 <= p < 4096 ==> #[trigger] prun(ring@, write_tick@, input@, s as int, require_written, p) < 3,
{
    if s >= input.len() {
        return 0;
    }
    let rest = input.len() - s;
    let cap = if rest < 18 {
        rest
    } else {
        18
    };
    let mut best: usize = 0;
    let mut bp: usize = 0;
    let mut pos: usize = 0;
    while pos < 4096
        invariant
            ring@.len() == 4096,
            write_tick@.len() == 4096,
            s < input@.len(),
            cap <= 18,
            cap as int == run_cap(input@.len() as int, s as int),
            s + cap <= input@.len(),
            pos <= 4096,
            bp < 4096,
            forall|p: int| 0 <= p < pos ==> #[trigger] prun(ring@, write_tick@, input@, s as int, require_written, p) <= best,
            best > 0 ==> prun(ring@, write_tick@, input@, s as int, require_written, bp as int) == best,
        decreases 4096 - pos,
    {
        let l = run_at(ring, write_tick, input, s, cap, require_written, pos);
        if l > best {
            best = l;
            bp = pos;
        }
        pos += 1;
    }
    if best < 3 {
        0
    } else {
        best
    }
}

/// The first slot with the longest plain match over written slots for
/// `input[s..]` (at most 18), with its length; `None` when no match
/// reaches 3 bytes or at the end of the input.
pub fn best_written_match(ring: &[u8], write_tick: &[u32], input: &[u8], s: usize) -> (res: Option<(usize, usize)>)
    requires
        ring@.len() == 4096,
        write_tick@.len() == 4096,
    ensures
        match res {
            None => forall|p: int| 0 <= p < 4096 ==> #[trigger] prun(ring@, write_tick@, input@, s as int, true, p) < 3,
            Some((bp, bl)) => {
                &&& bp < 4096
                &&& bl >= 3
                &&& prun(ring@, write_tick@, input@, s as int, true, bp as int) == bl
                &&& forall|p: int| 0 <= p < 4096 ==> #[trigger] prun(ring@, write_tick@, input@, s as int, true, p) <= bl
                &&& forall|p: int| 0 <= p < bp ==> #[trigger] prun(ring@, write_tick@, input@, s as int, true, p) < bl
            },
        },
{
    if s >= input.len() {
        proof {
            assert forall|p: int| 0 <= p < 4096 implies #[trigger] prun(ring@, write_tick@, input@, s as int, true, p) < 3 by {}
        }
        return None;
    }
    let rest = input.len() - s;
    let cap = if rest < 18 {
        rest
    } else {
        18
    };
    let mut best: Option<(usize, usize)> = None;
    let mut pos: usize = 0;
    while pos < 4096
        invariant
            ring@.len() == 4096,
            write_tick@.len() == 4096,
            s < input@.len(),
            cap <= 18,
            cap as int == run_cap(input@.len() as int, s as int),
            s + cap <= input@.len(),
            pos <= 4096,
            match best {
                None => forall|p: int| 0 <= p < pos ==> #[trigger] prun(ring@, write_tick@, input@, s as int, true, p) < 3,
                Some((bp, bl)) => {
                    &&& bp < pos
                    &&& bl >= 3
                    &&& prun(ring@, write_tick@, input@, s as int, true, bp as int) == bl
                    &&& forall|p: int| 0 <= p < pos ==> #[trigger] prun(ring@, write_tick@, input@, s as int, true, p) <= bl
                    &&& forall|p: int| 0 <= p < bp ==> #[trigger] prun(ring@, write_tick@, input@, s as int, true, p) < bl
                },
            },
        decreases 4096 - pos,
    {
        let l = run_at(ring, write_tick, input, s, cap, true, pos);
        if l >= 3 {
            match best {
                Some((_, bl)) if bl >= l => {},
                _ => {
                    best = Some((pos, l));
                },
            }
        }
        pos += 1;
    }
    best
}

/// Whether `target` occurs in the ring from slot `pos` on (modulo 4096).
pub open spec fn occurs_at(ring: Seq<u8>, target: Seq<u8>, pos: int) -> bool {
    forall|j: int| 0 <= j < target.len() ==> #[trigger] ring[(pos + j) % 4096] == target[j]
}

/// The slots among `0..n`, increasing, where `target` occurs.
pub open spec fn occurrences(ring: Seq<u8>, target: Seq<u8>, n: int) -> Seq<usize>
    decreases n,
{
    if n <= 0 {
        Seq::empty()
    } else if occurs_at(ring, target, n - 1) {
        occurrences(ring, target, n - 1).push((n - 1) as usize)
    } else {
        occurrences(ring, target, n - 1)
    }
}

/// Every slot from which `target` occurs in the ring; none for an empty
/// target.
pub fn find_all_occurrences(ring: &[u8], target: &[u8]) -> (out: Vec<usize>)
    requires
        ring@.len() == 4096,
        target@.len() + 4096 <= usize::MAX,
    ensures
        out@ == (if target@.len() == 0 {
            Seq::empty()
        } else {
            occurrences(ring@, target@, 4096)
        }),
{
    let mut out: Vec<usize> = Vec::new();
    if target.len() == 0 {
        return out;
    }
    let mut pos: usize = 0;
    while pos < 4096
        invariant
            ring@.len() == 4096,
            target@.len() + 4096 <= usize::MAX,
            pos <= 4096,
            out@ == occurrences(ring@, target@, pos as int),
        decreases 4096 - pos,
    {
        let mut j: usize = 0;
        let mut ok = true;
        while ok && j < target.len()
            invariant
                ring@.len() == 4096,
                pos < 4096,
                target@.len() + 4096 <= usize::MAX,
                j <= target@.len(),
                ok ==> forall|k: int| 0 <= k < j ==> #[trigger] ring@[(pos + k) % 4096] == target@[k],
                !ok ==> !occurs_at(ring@, target@, pos as int),
            decreases target@.len() - j + (if ok {
                1int
            } else {
                0int
            }),
        {
            proof {
                lemma_mask((pos + j) as usize);
            }
            if ring[(pos + j) & 0x0fff] != target[j] {
                ok = false;
                assert(ring@[(pos + j) % 4096] != target@[j as int]);
            } else {
                j += 1;
            }
        }
        if ok {
            out.push(pos);
        }
        pos += 1;
    }
    out
}

/// Whether the `len` slots from `pos` are all written, all unwritten, mixed,
/// or none (`len == 0`).
pub fn window_class(write_tick: &[u32], pos: usize, len: usize) -> (s: &'static str)
    requires
        write_tick@.len() == 4096,
        pos + len <= usize::MAX,
    ensures
        ({
            let unw = exists|k: int| 0 <= k < len && #[trigger] write_tick@[(pos + k) % 4096] == u32::MAX;
            let wr = exists|k: int| 0 <= k < len && #[trigger] write_tick@[(pos + k) % 4096] != u32::MAX;
            s@ == (if unw && !wr {
                "fully_unwritten"@
            } else if unw && wr {
                "partial"@
            } else if wr {
                "fully_written"@
            } else {
                "empty"@
            })
        }),
{
    let mut any_unwritten = false;
    let mut any_written = false;
    let mut k: usize = 0;
    while k < len
        invariant
            write_tick@.len() == 4096,
            pos + len <= usize::MAX,
            k <= len,
            any_unwritten <==> exists|j: int| 0 <= j < k && #[trigger] write_tick@[(pos + j) % 4096] == u32::MAX,
            any_written <==> exists|j: int| 0 <= j < k && #[trigger] write_tick@[(pos + j) % 4096] != u32::MAX,
        decreases len - k,
    {
        proof {
            lemma_mask((pos + k) as usize);
        }
        if write_tick[(pos + k) & 0x0fff] == u32::MAX {
            any_unwritten = true;
        } else {
            any_written = true;
        }
        k += 1;
    }
    if any_unwritten && !any_written {
        "fully_unwritten"
    } else if any_unwritten && any_written {
        "partial"
    } else if any_written {
        "fully_written"
    } else {
        "empty"
    }
}

/// Where a match position lies: in the band 4060..=4077 that the initial
/// lookahead occupies, on a slot never written outside it, or on a written
/// slot.
pub fn pos_class(pos: usize, write_tick: &[u32]) -> (s: &'static str)
    requires
        write_tick@.len() == 4096,
        pos < 4096,
    ensures
        s@ == (if 4060 <= pos <= 4077 {
            "bootstrap_band"@
        } else if write_tick@[pos as int] == u32::MAX {
            "dummy_outside_band"@
        } else {
            "real_written"@
        }),
{
    if 4060 <= pos && pos <= 4077 {
        "bootstrap_band"
    } else if write_tick[pos] == u32::MAX {
        "dummy_outside_band"
    } else {
        "real_written"
    }
}

/// The class of the first divergence between a stream and a simulation.
#[derive(Clone, Copy, Debug, PartialEq, Eq, Structural)]
pub enum DivClass {
    /// The stream's match is not among the candidates.
    LeafNotCand,
    /// Both are matches of different lengths, or the stream's match is
    /// shorter than the longest candidate.
    LenDiff,
    /// Same length, 18 bytes: a tie between full-length matches.
    TieF,
    /// Same length, shorter than 18 but the longest candidate.
    TieSubF,
    /// A literal on one side and a match on the other.
    KindDiff,
    /// Two literals (which should not differ).
    KindDiffSameLiteral,
}

/// Classifies the first divergent pair `leaf` / `sim` given the candidates
/// at that point.
pub fn classify_pair(leaf: Token, sim: Token, cands: &[MatchCandidate]) -> (c: DivClass)
    ensures
        c == (match (leaf, sim) {
            (Token::Match { pos: lp, len: ll }, Token::Match { len: ml, .. }) => {
                if !(exists|i: int| 0 <= i < cands@.len() && #[trigger] cands@[i].pos == lp && cands@[i].len == ll) {
                    DivClass::LeafNotCand
                } else if ll != ml {
                    DivClass::LenDiff
                } else if ll == 18 {
                    DivClass::TieF
                } else if ll == crate::firstdiff::max_len_upto(cands@, cands@.len() as int) {
                    DivClass::TieSubF
                } else {
                    DivClass::LenDiff
                }
            },
            (Token::Literal(_), Token::Literal(_)) => DivClass::KindDiffSameLiteral,
            _ => DivClass::KindDiff,
        }),
{
    match (leaf, sim) {
        (Token::Match { pos: lp, len: ll }, Token::Match { len: ml, .. }) => {
            let u = crate::token::UniToken { is_match: true, lit: 0, pos: lp, len: ll };
            let cs = crate::firstdiff::candidate_stats(cands, &u);
            if !cs.leaf_in_candidates {
                DivClass::LeafNotCand
            } else if ll != ml {
                DivClass::LenDiff
            } else if ll == 18 {
                DivClass::TieF
            } else if ll == cs.max_candidate_len {
                DivClass::TieSubF
            } else {
                DivClass::LenDiff
            }
        },
        (Token::Literal(_), Token::Literal(_)) => DivClass::KindDiffSameLiteral,
        _ => DivClass::KindDiff,
    }
}

impl DivClass {
    /// The class as the per-file classification report writes it.
    pub fn label(&self) -> (s: &'static str)
        ensures
            s@ == (match *self {
                DivClass::LeafNotCand => "LEAF_NOT_CAND"@,
                DivClass::LenDiff => "LEN_DIFF"@,
                DivClass::TieF => "TIE_F"@,
                DivClass::TieSubF => "TIE_SUBF"@,
                DivClass::KindDiff => "KIND_DIFF"@,
                DivClass::KindDiffSameLiteral => "KIND_DIFF_SAME_LITERAL(unexpected)"@,
            }),
    {
        match self {
            DivClass::LeafNotCand => "LEAF_NOT_CAND",
            DivClass::LenDiff => "LEN_DIFF",
            DivClass::TieF => "TIE_F",
            DivClass::TieSubF => "TIE_SUBF",
            DivClass::KindDiff => "KIND_DIFF",
            DivClass::KindDiffSameLiteral => "KIND_DIFF_SAME_LITERAL(unexpected)",
        }
    }

    /// The class as the corpus classification writes it, where two
    /// literals count as a kind difference too.
    pub fn short_label(&self) -> (s: &'static str)
        ensures
            s@ == (match *self {
                DivClass::LeafNotCand => "LEAF_NOT_CAND"@,
                DivClass::LenDiff => "LEN_DIFF"@,
                DivClass::TieF => "TIE_F"@,
                DivClass::TieSubF => "TIE_SUBF"@,
                DivClass::KindDiff => "KIND_DIFF"@,
                DivClass::KindDiffSameLiteral => "KIND_DIFF"@,
            }),
    {
        match self {
            DivClass::LeafNotCand => "LEAF_NOT_CAND",
            DivClass::LenDiff => "LEN_DIFF",
            DivClass::TieF => "TIE_F",
            DivClass::TieSubF => "TIE_SUBF",
            DivClass::KindDiff => "KIND_DIFF",
            DivClass::KindDiffSameLiteral => "KIND_DIFF",
        }
    }
}

} // verus!
