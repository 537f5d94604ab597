//! Where tied match positions lie on the image grid: for every match token
//! that several ring positions could reproduce, the distance back to each
//! such position is read as a (column, row) offset on an image of a given
//! width, clamped into a 17 x 13 grid of buckets, and counted for the chosen
//! position and for every rejected one.
use vstd::prelude::*;

use crate::model::{head_of, lemma_mod_basics, lemma_ring_of_len, ring_dist, ring_of, token_wf, Token};
use crate::gamma::{advance, bump, decodes_to, legal_list, legal_positions, lemma_legal_list, GammaError};
use crate::decode::{decompress_to_tokens, needed_prefix, DecodeError};
use crate::frame::parse;
use crate::header::{has_magic, header_of, parse_header_unchecked, payload_start_of};
use crate::model::decode;
use crate::ring::{dist_back, new_ring};

verus! {

/// Number of column buckets (offsets -8 to 8).
pub const GRID_COLS: usize = 17;

/// Number of row buckets (offsets 0 to 12).
pub const GRID_ROWS: usize = 13;

/// The (column, row) offset of a match distance `d` on an image `w` pixels
/// wide: `d` splits into whole rows and a column remainder, and a remainder
/// past half the width counts as a negative column on the next row.
pub open spec fn grid_offset(d: int, w: int) -> (int, int) {
    let row = d / w;
    let col = d % w;
    if col > w / 2 {
        (col - w, row + 1)
    } else {
        (col, row)
    }
}

/// An offset clamped into the grid: the column to -8..=8, the row to at
/// most 12.
pub open spec fn clamp_offset(off: (int, int)) -> (int, int) {
    (
        if off.0 < -8 {
            -8
        } else if off.0 > 8 {
            8
        } else {
            off.0
        },
        if off.1 > 12 {
            12
        } else {
            off.1
        },
    )
}

/// The grid bucket, row-major, of a clamped offset.
pub open spec fn bucket_index(b: (int, int)) -> int {
    b.1 * 17 + b.0 + 8
}

/// The bucket of ring position `pos` seen from head `r` on a `w`-wide image.
pub open spec fn pos_bucket(r: int, pos: int, w: int) -> int {
    bucket_index(clamp_offset(grid_offset(ring_dist(r, pos), w)))
}

/// The grid offset of a distance is the one way of writing it as whole
/// rows plus a column that lies within half a row of straight above:
/// `row * w + col == d` with `w / 2 - w < col <= w / 2`, and the row is
/// never negative.
pub proof fn lemma_grid_offset_unique(d: int, w: int, row: int, col: int)
    requires
        d >= 0,
        w > 0,
    ensures
        grid_offset(d, w).1 * w + grid_offset(d, w).0 == d,
        w / 2 - w < grid_offset(d, w).0 <= w / 2,
        grid_offset(d, w).1 >= 0,
        row * w + col == d && w / 2 - w < col <= w / 2 ==> grid_offset(d, w) == (col, row),
{
    vstd::arithmetic::div_mod::lemma_fundamental_div_mod(d, w);
    vstd::arithmetic::div_mod::lemma_mod_bound(d, w);
    vstd::arithmetic::div_mod::lemma_div_pos_is_pos(d, w);
    let q = d / w;
    let m = d % w;
    assert(q * w == w * q) by (nonlinear_arith);
    assert((q + 1) * w == q * w + w) by (nonlinear_arith);
    assert(grid_offset(d, w).1 * w + grid_offset(d, w).0 == d);
    if row * w + col == d && w / 2 - w < col <= w / 2 {
        let (c0, r0) = grid_offset(d, w);
        // both are d written as rows plus a column in the same window of
        // width w, so the rows agree
        assert((row - r0) * w == c0 - col) by (nonlinear_arith)
            requires
                row * w + col == d,
                r0 * w + c0 == d,
        ;
        if row > r0 {
            assert((row - r0) * w >= w) by (nonlinear_arith)
                requires
                    row - r0 >= 1,
                    w > 0,
            ;
        }
        if row < r0 {
            assert((r0 - row) * w >= w) by (nonlinear_arith)
                requires
                    r0 - row >= 1,
                    w > 0,
            ;
            assert((row - r0) * w == -((r0 - row) * w)) by (nonlinear_arith);
        }
    }
}

/// Clamping leaves an offset inside the grid unchanged, and moves one
/// outside it to the nearest edge.
pub proof fn lemma_clamp_offset(off: (int, int))
    ensures
        -8 <= off.0 <= 8 && off.1 <= 12 ==> clamp_offset(off) == off,
        -8 <= clamp_offset(off).0 <= 8,
        clamp_offset(off).1 <= 12,
        clamp_offset(off).1 == (if off.1 > 12 { 12 } else { off.1 }),
        off.0 < -8 ==> clamp_offset(off).0 == -8,
        off.0 > 8 ==> clamp_offset(off).0 == 8,
        clamp_offset(clamp_offset(off)) == clamp_offset(off),
{
}

/// Distinct cells of the grid (columns -8..=8, rows 0..=12) have distinct
/// buckets, numbered row by row from 0 to 220.
pub proof fn lemma_bucket_index_injective(a: (int, int), b: (int, int))
    requires
        -8 <= a.0 <= 8,
        0 <= a.1 <= 12,
        -8 <= b.0 <= 8,
        0 <= b.1 <= 12,
    ensures
        0 <= bucket_index(a) < 221,
        bucket_index(a) == bucket_index(b) <==> a == b,
        bucket_index((a.0 + 1, a.1)) == bucket_index(a) + 1,
        bucket_index((a.0, a.1 + 1)) == bucket_index(a) + 17,
{
}

/// Buckets of valid distances lie in the grid.
pub proof fn lemma_pos_bucket_range(r: int, pos: int, w: int)
    requires
        w > 0,
    ensures
        0 <= pos_bucket(r, pos, w) < 221,
{
    let d = ring_dist(r, pos);
    assert(d >= 0);
    assert(d / w >= 0) by (nonlinear_arith)
        requires
            d >= 0,
            w > 0,
    ;
}

/// The clamped grid offset of ring position `pos` seen from head `r` on an
/// image `w` pixels wide.
pub fn offset_bucket(r: usize, pos: u16, w: usize) -> (b: (i32, i32))
    requires
        r < 4096,
        pos < 4096,
        0 < w <= 0xffff,
    ensures
        b.0 as int == clamp_offset(grid_offset(ring_dist(r as int, pos as int), w as int)).0,
        b.1 as int == clamp_offset(grid_offset(ring_dist(r as int, pos as int), w as int)).1,
{
    let d = dist_back(r, pos);
    proof {
        lemma_mod_basics(r - pos);
    }
    let di = d as i32;
    let wi = w as i32;
    let row = di / wi;
    let col = di % wi;
    proof {
        assert(row as int == (d as int) / (w as int));
        assert(col as int == (d as int) % (w as int));
        assert(row <= di) by (nonlinear_arith)
            requires
                di >= 0,
                wi > 0,
                row == di / wi,
        ;
    }
    let (c, rw) = if col > wi / 2 {
        (col - wi, row + 1)
    } else {
        (col, row)
    };
    let cb = if c < -8 {
        -8
    } else if c > 8 {
        8
    } else {
        c
    };
    let rb = if rw > 12 {
        12
    } else {
        rw
    };
    (cb, rb)
}

/// Grid index of a clamped offset.
fn grid_index(b: (i32, i32)) -> (i: usize)
    requires
        -8 <= b.0 <= 8,
        0 <= b.1 <= 12,
    ensures
        i as int == bucket_index((b.0 as int, b.1 as int)),
        i < 221,
{
    (b.1 * 17 + b.0 + 8) as usize
}

/// Counts per grid bucket of chosen and of rejected positions.
pub struct OffsetStats {
    /// Chosen positions per bucket, row-major (17 columns by 13 rows).
    pub chosen: Vec<u64>,
    /// Rejected positions per bucket.
    pub rejected: Vec<u64>,
    pub total_chosen: u64,
    pub total_rejected: u64,
}

/// `OffsetStats` with its grids as sequences.
pub struct OffsetView {
    pub chosen: Seq<u64>,
    pub rejected: Seq<u64>,
    pub total_chosen: u64,
    pub total_rejected: u64,
}

impl View for OffsetStats {
    type V = OffsetView;

    open spec fn view(&self) -> OffsetView {
        OffsetView {
            chosen: self.chosen@,
            rejected: self.rejected@,
            total_chosen: self.total_chosen,
            total_rejected: self.total_rejected,
        }
    }
}

impl OffsetView {
    /// Both grids have all their buckets.
    pub open spec fn wf(self) -> bool {
        self.chosen.len() == 221 && self.rejected.len() == 221
    }
}

/// Adds one to bucket `i`.
pub open spec fn grid_bump(h: Seq<u64>, i: int) -> Seq<u64> {
    h.update(i, bump(h[i]))
}

/// The counts after a tied token's rejected positions, the first `n` of
/// `ps`, are added: every position but the chosen one.
pub open spec fn reject_rest(v: OffsetView, r: int, w: int, ps: Seq<u16>, chosen: u16, n: int) -> OffsetView
    decreases n,
{
    if n <= 0 {
        v
    } else {
        let v0 = reject_rest(v, r, w, ps, chosen, n - 1);
        if ps[n - 1] != chosen {
            OffsetView {
                rejected: grid_bump(v0.rejected, pos_bucket(r, ps[n - 1] as int, w)),
                total_rejected: bump(v0.total_rejected),
                ..v0
            }
        } else {
            v0
        }
    }
}

/// The counts after one tied token with legal positions `ps` and chosen
/// position `chosen`.
pub open spec fn tally_tie(v: OffsetView, r: int, w: int, ps: Seq<u16>, chosen: u16) -> OffsetView {
    let v1 = OffsetView {
        chosen: grid_bump(v.chosen, pos_bucket(r, chosen as int, w)),
        total_chosen: bump(v.total_chosen),
        ..v
    };
    reject_rest(v1, r, w, ps, chosen, ps.len() as int)
}

/// Where the replay of a file stands.
pub struct OffsetPoint {
    pub v: OffsetView,
    pub s: int,
    pub stopped: bool,
}

/// One token of the replay: a literal past the end of the input stops it; a
/// match that runs past the end consumes the rest of the input; any other
/// match is checked against every ring position and, when several reproduce
/// it, tallied.
pub open spec fn offset_token(input: Seq<u8>, w: int, p: OffsetPoint, t: Token) -> OffsetPoint {
    if p.stopped {
        p
    } else {
        match t {
            Token::Literal(_) => if p.s >= input.len() {
                OffsetPoint { stopped: true, ..p }
            } else {
                OffsetPoint { s: p.s + 1, ..p }
            },
            Token::Match { pos, len } => {
                if p.s + len > input.len() {
                    OffsetPoint { s: input.len() as int, ..p }
                } else {
                    let ps = legal_list(
                        ring_of(input.take(p.s)),
                        head_of(p.s),
                        input.skip(p.s),
                        len as int,
                        4096,
                    );
                    let v = if ps.len() > 1 {
                        tally_tie(p.v, head_of(p.s), w, ps, pos)
                    } else {
                        p.v
                    };
                    OffsetPoint { v, s: p.s + len, stopped: false }
                }
            },
        }
    }
}

/// The replay after the first `k` tokens.
pub open spec fn offset_tokens(input: Seq<u8>, w: int, ts: Seq<Token>, k: int, p0: OffsetPoint) -> OffsetPoint
    decreases k,
{
    if k <= 0 {
        p0
    } else {
        offset_token(input, w, offset_tokens(input, w, ts, k - 1, p0), ts[k - 1])
    }
}

/// The counts after replaying one file's tokens over its input.
pub open spec fn offset_tallies(v: OffsetView, input: Seq<u8>, w: int, ts: Seq<Token>) -> OffsetView {
    offset_tokens(input, w, ts, ts.len() as int, OffsetPoint { v, s: 0, stopped: false }).v
}

/// The counts of the two grids added bucket by bucket, and the totals.
pub open spec fn offsets_merged(a: OffsetView, b: OffsetView) -> OffsetView {
    OffsetView {
        chosen: Seq::new(221, |i: int| a.chosen[i].wrapping_add(b.chosen[i])),
        rejected: Seq::new(221, |i: int| a.rejected[i].wrapping_add(b.rejected[i])),
        total_chosen: a.total_chosen.wrapping_add(b.total_chosen),
        total_rejected: a.total_rejected.wrapping_add(b.total_rejected),
    }
}

/// Adds a count to bucket `i`.
fn grid_add(h: &mut Vec<u64>, i: usize)
    requires
        i < old(h)@.len(),
    ensures
        final(h)@ == grid_bump(old(h)@, i as int),
{
    let x = h[i];
    h.set(i, x.wrapping_add(1));
}

impl OffsetStats {
    /// The view of empty counts.
    pub open spec fn new_view() -> OffsetView {
        OffsetView {
            chosen: Seq::new(221, |i: int| 0u64),
            rejected: Seq::new(221, |i: int| 0u64),
            total_chosen: 0,
            total_rejected: 0,
        }
    }

    /// Empty counts.
    pub fn new() -> (s: OffsetStats)
        ensures
            s@.wf(),
            s@ == OffsetStats::new_view(),
            s@.totals_match(),
    {
        proof {
            lemma_new_totals();
        }
        let s = OffsetStats {
            chosen: vec![0u64; 221],
            rejected: vec![0u64; 221],
            total_chosen: 0,
            total_rejected: 0,
        };
        assert(s.chosen@ =~= Seq::new(221, |i: int| 0u64));
        assert(s.rejected@ =~= Seq::new(221, |i: int| 0u64));
        s
    }

    /// The count of chosen positions at grid offset (`col`, `row`); 0 off
    /// the grid.
    pub fn chosen_at(&self, col: i32, row: i32) -> (c: u64)
        requires
            self@.wf(),
        ensures
            c == (if -8 <= col <= 8 && 0 <= row <= 12 {
                self@.chosen[bucket_index((col as int, row as int))]
            } else {
                0
            }),
    {
        if -8 <= col && col <= 8 && 0 <= row && row <= 12 {
            self.chosen[grid_index((col, row))]
        } else {
            0
        }
    }

    /// The count of rejected positions at grid offset (`col`, `row`); 0 off
    /// the grid.
    pub fn rejected_at(&self, col: i32, row: i32) -> (c: u64)
        requires
            self@.wf(),
        ensures
            c == (if -8 <= col <= 8 && 0 <= row <= 12 {
                self@.rejected[bucket_index((col as int, row as int))]
            } else {
                0
            }),
    {
        if -8 <= col && col <= 8 && 0 <= row && row <= 12 {
            self.rejected[grid_index((col, row))]
        } else {
            0
        }
    }

    /// Adds the counts of `o` (other files) into these.
    pub fn merge(&mut self, o: &OffsetStats)
        requires
            old(self)@.wf(),
            o@.wf(),
        ensures
            final(self)@ == offsets_merged(old(self)@, o@),
            final(self)@.wf(),
            old(self)@.totals_match() && o@.totals_match() ==> final(self)@.totals_match(),
    {
        let mut i: usize = 0;
        while i < 221
            invariant
                o@.wf(),
                self.chosen@.len() == 221,
                self.rejected@.len() == 221,
                i <= 221,
                forall|j: int| 0 <= j < i ==> #[trigger] self.chosen@[j] == old(self)@.chosen[j].wrapping_add(o@.chosen[j]),
                forall|j: int| 0 <= j < i ==> #[trigger] self.rejected@[j] == old(self)@.rejected[j].wrapping_add(o@.rejected[j]),
                forall|j: int| i <= j < 221 ==> #[trigger] self.chosen@[j] == old(self)@.chosen[j],
                forall|j: int| i <= j < 221 ==> #[trigger] self.rejected@[j] == old(self)@.rejected[j],
                self.total_chosen == old(self)@.total_chosen,
                self.total_rejected == old(self)@.total_rejected,
            decreases 221 - i,
        {
            let a = self.chosen[i].wrapping_add(o.chosen[i]);
            self.chosen.set(i, a);
            let b = self.rejected[i].wrapping_add(o.rejected[i]);
            self.rejected.set(i, b);
            i += 1;
        }
        self.total_chosen = self.total_chosen.wrapping_add(o.total_chosen);
        self.total_rejected = self.total_rejected.wrapping_add(o.total_rejected);
        assert(self@.chosen =~= offsets_merged(old(self)@, o@).chosen);
        assert(self@.rejected =~= offsets_merged(old(self)@, o@).rejected);
        proof {
            if old(self)@.totals_match() && o@.totals_match() {
                lemma_merged_totals(old(self)@, o@);
            }
        }
    }
}

/// Tallies one tied token: its chosen position and every other legal one.
fn tally_tied(stats: &mut OffsetStats, legal: &Vec<u16>, r: usize, w: usize, chosen: u16)
    requires
        old(stats)@.wf(),
        r < 4096,
        0 < w <= 0xffff,
        chosen < 4096,
        forall|i: int| 0 <= i < legal@.len() ==> #[trigger] legal@[i] < 4096,
    ensures
        final(stats)@ == tally_tie(old(stats)@, r as int, w as int, legal@, chosen),
        final(stats)@.wf(),
{
    let b = offset_bucket(r, chosen, w);
    proof {
        lemma_pos_bucket_range(r as int, chosen as int, w as int);
    }
    grid_add(&mut stats.chosen, grid_index(b));
    stats.total_chosen = stats.total_chosen.wrapping_add(1);
    let ghost v1 = stats@;
    let mut i: usize = 0;
    while i < legal.len()
        invariant
            v1.wf(),
            r < 4096,
            0 < w <= 0xffff,
            i <= legal@.len(),
            forall|j: int| 0 <= j < legal@.len() ==> #[trigger] legal@[j] < 4096,
            stats@ == reject_rest(v1, r as int, w as int, legal@, chosen, i as int),
            stats@.wf(),
        decreases legal@.len() - i,
    {
        let p = legal[i];
        if p != chosen {
            let bp = offset_bucket(r, p, w);
            proof {
                lemma_pos_bucket_range(r as int, p as int, w as int);
            }
            grid_add(&mut stats.rejected, grid_index(bp));
            stats.total_rejected = stats.total_rejected.wrapping_add(1);
        }
        i += 1;
    }
}

/// One token of the replay.
fn offset_one(
    stats: &mut OffsetStats,
    ring: &mut Vec<u8>,
    r: &mut usize,
    s: &mut usize,
    input: &[u8],
    w: usize,
    t: Token,
) -> (stopped: bool)
    requires
        old(stats)@.wf(),
        0 < w <= 0xffff,
        token_wf(t),
        old(ring)@ == ring_of(input@.take(*old(s) as int)),
        *old(r) as int == head_of(*old(s) as int),
        *old(s) <= input@.len(),
    ensures
        ({
            let q = offset_token(
                input@,
                w as int,
                OffsetPoint { v: old(stats)@, s: *old(s) as int, stopped: false },
                t,
            );
            &&& final(stats)@ == q.v
            &&& *final(s) as int == q.s
            &&& stopped == q.stopped
        }),
        final(stats)@.wf(),
        final(ring)@ == ring_of(input@.take(*final(s) as int)),
        *final(r) as int == head_of(*final(s) as int),
        *final(s) <= input@.len(),
{
    match t {
        Token::Literal(_) => {
            if *s >= input.len() {
                return true;
            }
            advance(ring, r, s, input, 1);
            false
        },
        Token::Match { pos, len } => {
            let l = len as usize;
            if l > input.len() - *s {
                advance(ring, r, s, input, l);
                return false;
            }
            proof {
                lemma_ring_of_len(input@.take(*s as int));
                lemma_mod_basics(0xfee + *s);
            }
            let legal = legal_positions(ring, *r, input, *s, l);
            if legal.len() > 1 {
                proof {
                    lemma_legal_list(ring@, *r as int, input@.skip(*s as int), l as int, 4096);
                }
                tally_tied(stats, &legal, *r, w, pos);
            }
            advance(ring, r, s, input, l);
            false
        },
    }
}

/// A stopped replay stays as it is.
proof fn lemma_offsets_stopped(input: Seq<u8>, w: int, ts: Seq<Token>, k: int, n: int, p0: OffsetPoint)
    requires
        0 <= k <= n,
        offset_tokens(input, w, ts, k, p0).stopped,
    ensures
        offset_tokens(input, w, ts, n, p0) == offset_tokens(input, w, ts, k, p0),
    decreases n - k,
{
    if n > k {
        lemma_offsets_stopped(input, w, ts, k, n - 1, p0);
    }
}

impl OffsetStats {
    /// Replays one file's tokens over its input (what the tokens decode to)
    /// on an image `w` pixels wide and adds its tied tokens to the counts.
    pub fn record_tokens(&mut self, input: &[u8], tokens: &[Token], w: usize)
        requires
            old(self)@.wf(),
            0 < w <= 0xffff,
            decodes_to(input@, tokens@),
        ensures
            final(self)@ == offset_tallies(old(self)@, input@, w as int, tokens@),
            final(self)@.wf(),
            old(self)@.totals_match() ==> final(self)@.totals_match(),
    {
        let ghost v0 = self@;
        let mut ring = new_ring();
        let mut r: usize = 0x0fee;
        let mut s: usize = 0;
        proof {
            assert(input@.take(0) =~= Seq::<u8>::empty());
            crate::model::lemma_mod_by(0xfee, 0, 0xfee);
        }
        let n = tokens.len();
        let mut k: usize = 0;
        let mut done = false;
        while k < n && !done
            invariant
                n == tokens@.len(),
                decodes_to(input@, tokens@),
                0 < w <= 0xffff,
                k <= n,
                offset_tokens(input@, w as int, tokens@, k as int, OffsetPoint { v: v0, s: 0, stopped: false })
                    == (OffsetPoint { v: self@, s: s as int, stopped: done }),
                self@.wf(),
                ring@ == ring_of(input@.take(s as int)),
                r as int == head_of(s as int),
                s <= input@.len(),
            decreases n - k,
        {
            let t = tokens[k];
            assert(token_wf(tokens@[k as int]));
            let stopped = offset_one(self, &mut ring, &mut r, &mut s, input, w, t);
            done = stopped;
            k += 1;
        }
        proof {
            if done {
                lemma_offsets_stopped(input@, w as int, tokens@, k as int, n as int, OffsetPoint { v: v0, s: 0, stopped: false });
            }
            if v0.totals_match() {
                lemma_offset_tokens_totals(input@, w as int, tokens@, n as int, OffsetPoint { v: v0, s: 0, stopped: false });
            }
        }
    }
}

/// Replays one LF2 file and returns its image width with the counts of its
/// tied tokens; `None` when its width is 0, or differs from `width_filter`
/// where that is not 0.
pub fn process_file(data: &[u8], width_filter: usize) -> (res: Result<Option<(usize, OffsetStats)>, GammaError>)
    requires
        data@.len() >= 0x18 && has_magic(data@) ==> payload_start_of(data@) <= data@.len(),
    ensures
        data@.len() < 0x18 || !has_magic(data@) ==> res == Err::<Option<(usize, OffsetStats)>, GammaError>(GammaError::NotLf2),
        data@.len() >= 0x18 && has_magic(data@) ==> {
            let h = header_of(data@);
            let payload = data@.skip(h.payload_start as int);
            match res {
                Err(GammaError::NotLf2) => false,
                Err(GammaError::Decode(e)) => {
                    &&& (e == DecodeError::Malformed <==> parse(payload) is None)
                    &&& (e == DecodeError::TooShort ==> (parse(payload) matches Some(ts) && decode(
                        ts,
                    ).len() < h.width * h.height))
                },
                Ok(None) => parse(payload) is Some && (h.width == 0 || (width_filter != 0 && h.width != width_filter)),
                Ok(Some((w, st))) => {
                    &&& w == h.width
                    &&& w != 0
                    &&& (width_filter == 0 || w == width_filter)
                    &&& st@.wf()
                    &&& st@.totals_match()
                    &&& parse(payload) matches Some(ts) && exists|k: int|
                        needed_prefix(ts, h.width * h.height, k) && st@ == offset_tallies(
                            OffsetStats::new_view(),
                            decode(ts.take(k)).take(h.width * h.height),
                            w as int,
                            #[trigger] ts.take(k),
                        )
                },
            }
        },
{
    let (w, h, ps) = match parse_header_unchecked(data) {
        Ok(x) => x,
        Err(_) => {
            return Err(GammaError::NotLf2);
        },
    };
    let n = data.len();
    let payload = vstd::slice::slice_subrange(data, ps, n);
    match decompress_to_tokens(payload, w, h) {
        Err(e) => Err(GammaError::Decode(e)),
        Ok(d) => {
            let wu = w as usize;
            if wu == 0 {
                return Ok(None);
            }
            if wu != width_filter && width_filter != 0 {
                return Ok(None);
            }
            proof {
                let ts = parse(payload@)->0;
                let k = d.tokens@.len() as int;
                assert(ts.take(k) == d.tokens@);
            }
            let mut st = OffsetStats::new();
            st.record_tokens(d.ring_input.as_slice(), d.tokens.as_slice(), wu);
            Ok(Some((wu, st)))
        },
    }
}

/// The sum of the first `n` counts of a grid.
pub open spec fn grid_sum(h: Seq<u64>, n: int) -> int
    decreases n,
{
    if n <= 0 {
        0
    } else {
        grid_sum(h, n - 1) + h[n - 1]
    }
}

impl OffsetView {
    /// The grids' counts add up to the totals, modulo 2^64.
    pub open spec fn totals_match(self) -> bool {
        &&& grid_sum(self.chosen, 221) % 0x1_0000_0000_0000_0000 == self.total_chosen as int
        &&& grid_sum(self.rejected, 221) % 0x1_0000_0000_0000_0000 == self.total_rejected as int
    }
}

/// Changing one count changes the sum by the difference.
proof fn lemma_grid_sum_update(h: Seq<u64>, i: int, v: u64, n: int)
    requires
        0 <= i < n <= h.len(),
    ensures
        grid_sum(h.update(i, v), n) == grid_sum(h, n) - h[i] + v,
    decreases n,
{
    if n - 1 > i {
        lemma_grid_sum_update(h, i, v, n - 1);
    } else {
        assert(n - 1 == i);
        lemma_grid_sum_unchanged(h, h.update(i, v), n - 1);
    }
}

/// Sums over equal prefixes are equal.
proof fn lemma_grid_sum_unchanged(a: Seq<u64>, b: Seq<u64>, n: int)
    requires
        0 <= n <= a.len(),
        n <= b.len(),
        forall|j: int| 0 <= j < n ==> a[j] == b[j],
    ensures
        grid_sum(a, n) == grid_sum(b, n),
    decreases n,
{
    if n > 0 {
        lemma_grid_sum_unchanged(a, b, n - 1);
    }
}

/// One more count in a bucket and in its total keeps them matching.
proof fn lemma_grid_bump_total(h: Seq<u64>, i: int, t: u64)
    requires
        h.len() == 221,
        0 <= i < 221,
        grid_sum(h, 221) % 0x1_0000_0000_0000_0000 == t as int,
    ensures
        grid_sum(grid_bump(h, i), 221) % 0x1_0000_0000_0000_0000 == bump(t) as int,
{
    let m: int = 0x1_0000_0000_0000_0000;
    let s0 = grid_sum(h, 221);
    lemma_grid_sum_update(h, i, bump(h[i]), 221);
    let s1 = grid_sum(grid_bump(h, i), 221);
    if h[i] == u64::MAX {
        assert(s1 == s0 + 1 - m);
        vstd::arithmetic::div_mod::lemma_mod_sub_multiples_vanish(s0 + 1, m);
    } else {
        assert(s1 == s0 + 1);
    }
    vstd::arithmetic::div_mod::lemma_add_mod_noop(s0, 1, m);
    vstd::arithmetic::div_mod::lemma_small_mod(1, m as nat);
    vstd::arithmetic::div_mod::lemma_mod_bound(s0, m);
    if t == u64::MAX {
        assert((s0 + 1) % m == 0) by {
            vstd::arithmetic::div_mod::lemma_mod_self_0(m);
        }
    } else {
        vstd::arithmetic::div_mod::lemma_small_mod((t + 1) as nat, m as nat);
    }
}

/// Rejecting positions keeps the rejected grid matching its total.
proof fn lemma_reject_rest_totals(v: OffsetView, r: int, w: int, ps: Seq<u16>, chosen: u16, n: int)
    requires
        v.wf(),
        v.totals_match(),
        w > 0,
        n <= ps.len(),
    ensures
        reject_rest(v, r, w, ps, chosen, n).wf(),
        reject_rest(v, r, w, ps, chosen, n).totals_match(),
        reject_rest(v, r, w, ps, chosen, n).chosen == v.chosen,
        reject_rest(v, r, w, ps, chosen, n).total_chosen == v.total_chosen,
    decreases n,
{
    if n > 0 {
        lemma_reject_rest_totals(v, r, w, ps, chosen, n - 1);
        let v0 = reject_rest(v, r, w, ps, chosen, n - 1);
        if ps[n - 1] != chosen {
            lemma_pos_bucket_range(r, ps[n - 1] as int, w);
            lemma_grid_bump_total(v0.rejected, pos_bucket(r, ps[n - 1] as int, w), v0.total_rejected);
        }
    }
}

/// A tied token keeps the grids matching their totals.
pub proof fn lemma_tally_tie_totals(v: OffsetView, r: int, w: int, ps: Seq<u16>, chosen: u16)
    requires
        v.wf(),
        v.totals_match(),
        w > 0,
    ensures
        tally_tie(v, r, w, ps, chosen).wf(),
        tally_tie(v, r, w, ps, chosen).totals_match(),
{
    lemma_pos_bucket_range(r, chosen as int, w);
    lemma_grid_bump_total(v.chosen, pos_bucket(r, chosen as int, w), v.total_chosen);
    let v1 = OffsetView {
        chosen: grid_bump(v.chosen, pos_bucket(r, chosen as int, w)),
        total_chosen: bump(v.total_chosen),
        ..v
    };
    lemma_reject_rest_totals(v1, r, w, ps, chosen, ps.len() as int);
}

/// Replaying tokens keeps the grids matching their totals.
pub proof fn lemma_offset_tokens_totals(input: Seq<u8>, w: int, ts: Seq<Token>, k: int, p0: OffsetPoint)
    requires
        p0.v.wf(),
        p0.v.totals_match(),
        w > 0,
    ensures
        offset_tokens(input, w, ts, k, p0).v.wf(),
        offset_tokens(input, w, ts, k, p0).v.totals_match(),
    decreases k,
{
    if k > 0 {
        lemma_offset_tokens_totals(input, w, ts, k - 1, p0);
        let p = offset_tokens(input, w, ts, k - 1, p0);
        if !p.stopped {
            if let Token::Match { pos, len } = ts[k - 1] {
                if p.s + len <= input.len() {
                    let ps = legal_list(
                        ring_of(input.take(p.s)),
                        head_of(p.s),
                        input.skip(p.s),
                        len as int,
                        4096,
                    );
                    if ps.len() > 1 {
                        lemma_tally_tie_totals(p.v, head_of(p.s), w, ps, pos);
                    }
                }
            }
        }
    }
}

/// Sums of bucket-wise wrapped additions are the sums' sum, modulo 2^64.
proof fn lemma_grid_sum_merged(a: Seq<u64>, b: Seq<u64>, n: int)
    requires
        0 <= n <= 221,
        a.len() == 221,
        b.len() == 221,
    ensures
        grid_sum(Seq::new(221, |i: int| a[i].wrapping_add(b[i])), n) % 0x1_0000_0000_0000_0000
            == (grid_sum(a, n) + grid_sum(b, n)) % 0x1_0000_0000_0000_0000,
    decreases n,
{
    let m: int = 0x1_0000_0000_0000_0000;
    let c = Seq::new(221, |i: int| a[i].wrapping_add(b[i]));
    if n > 0 {
        lemma_grid_sum_merged(a, b, n - 1);
        let x = grid_sum(c, n - 1);
        let y = grid_sum(a, n - 1) + grid_sum(b, n - 1);
        let ai = a[n - 1] as int;
        let bi = b[n - 1] as int;
        assert(c[n - 1] as int == (ai + bi) % m);
        vstd::arithmetic::div_mod::lemma_add_mod_noop(x, (ai + bi) % m, m);
        vstd::arithmetic::div_mod::lemma_mod_twice(ai + bi, m);
        vstd::arithmetic::div_mod::lemma_add_mod_noop(x, ai + bi, m);
        vstd::arithmetic::div_mod::lemma_add_mod_noop(y, ai + bi, m);
        assert(grid_sum(c, n) == x + c[n - 1]);
        assert(grid_sum(a, n) + grid_sum(b, n) == y + ai + bi);
    }
}

/// Merging keeps the grids matching their totals.
pub proof fn lemma_merged_totals(a: OffsetView, b: OffsetView)
    requires
        a.wf(),
        b.wf(),
        a.totals_match(),
        b.totals_match(),
    ensures
        offsets_merged(a, b).totals_match(),
{
    let m: int = 0x1_0000_0000_0000_0000;
    lemma_grid_sum_merged(a.chosen, b.chosen, 221);
    lemma_grid_sum_merged(a.rejected, b.rejected, 221);
    vstd::arithmetic::div_mod::lemma_add_mod_noop(grid_sum(a.chosen, 221), grid_sum(b.chosen, 221), m);
    vstd::arithmetic::div_mod::lemma_add_mod_noop(grid_sum(a.rejected, 221), grid_sum(b.rejected, 221), m);
}

/// The empty grids match their zero totals.
pub proof fn lemma_new_totals()
    ensures
        OffsetStats::new_view().totals_match(),
{
    let z = Seq::new(221, |i: int| 0u64);
    assert forall|n: int| 0 <= n <= 221 implies grid_sum(z, n) == 0 by {
        lemma_grid_sum_zero(z, n);
    }
}

proof fn lemma_grid_sum_zero(z: Seq<u64>, n: int)
    requires
        0 <= n <= z.len(),
        forall|j: int| 0 <= j < z.len() ==> z[j] == 0,
    ensures
        grid_sum(z, n) == 0,
    decreases n,
{
    if n > 0 {
        lemma_grid_sum_zero(z, n - 1);
    }
}

} // verus!
