//! How an encoder picks among several positions that reproduce the same
//! match: for every match token of a stream whose length several ring
//! positions could reproduce, tallies whether the chosen one is the nearest,
//! the farthest, the lowest or the highest position, its rank by distance and
//! by position, and its distance.
use vstd::prelude::*;

use crate::model::{
    decode, expand, head_of, lemma_copy_matches, lemma_decode_push, lemma_expand_len,
    lemma_mod_basics, lemma_ring_of_concat, lemma_ring_of_len, match_holds, ring_dist, ring_of, token_wf, Token,
};
use crate::decode::{decompress_to_tokens, needed_prefix, DecodeError};
use crate::frame::parse;
use crate::header::{has_magic, header_of, parse_header_unchecked, payload_start_of};
use crate::greedy::token_size_exec;
use crate::ring::{check_match_with_writeback, dist_back, new_ring, push_byte};

verus! {

/// The positions among `0..n`, increasing, from which a match of length
/// `len` reproduces `target` on `ring` with head `r`.
pub open spec fn legal_list(ring: Seq<u8>, r: int, target: Seq<u8>, len: int, n: int) -> Seq<u16>
    decreases n,
{
    if n <= 0 {
        Seq::empty()
    } else {
        let prev = legal_list(ring, r, target, len, n - 1);
        if match_holds(ring, r, n - 1, target, len) {
            prev.push((n - 1) as u16)
        } else {
            prev
        }
    }
}

/// Every position from which a match of `len` bytes reproduces
/// `input[s..s + len]`, in increasing order.
pub fn legal_positions(ring: &[u8], r: usize, input: &[u8], s: usize, len: usize) -> (v: Vec<u16>)
    requires
        ring@.len() == 4096,
        r < 4096,
        s + len <= input@.len(),
    ensures
        v@ == legal_list(ring@, r as int, input@.skip(s as int), len as int, 4096),
{
    let mut v: Vec<u16> = Vec::new();
    let mut pos: usize = 0;
    while pos < 4096
        invariant
            ring@.len() == 4096,
            r < 4096,
            s + len <= input@.len(),
            pos <= 4096,
            v@ == legal_list(ring@, r as int, input@.skip(s as int), len as int, pos as int),
        decreases 4096 - pos,
    {
        if check_match_with_writeback(ring, r, pos, input, s, len) {
            v.push(pos as u16);
        }
        pos += 1;
    }
    v
}

/// The smallest distance back from `r` over the positions of `ps`.
pub open spec fn min_dist(r: int, ps: Seq<u16>) -> int
    decreases ps.len(),
{
    if ps.len() == 0 {
        0
    } else if ps.len() == 1 {
        ring_dist(r, ps[0] as int)
    } else {
        let m = min_dist(r, ps.drop_last());
        let d = ring_dist(r, ps.last() as int);
        if d < m {
            d
        } else {
            m
        }
    }
}

/// The largest distance back from `r` over the positions of `ps`.
pub open spec fn max_dist(r: int, ps: Seq<u16>) -> int
    decreases ps.len(),
{
    if ps.len() == 0 {
        0
    } else {
        let m = max_dist(r, ps.drop_last());
        let d = ring_dist(r, ps.last() as int);
        if d > m {
            d
        } else {
            m
        }
    }
}

/// How many positions of `ps` are closer to `r` than distance `d`.
pub open spec fn count_closer_than(r: int, ps: Seq<u16>, d: int) -> int
    decreases ps.len(),
{
    if ps.len() == 0 {
        0
    } else {
        count_closer_than(r, ps.drop_last(), d) + if ring_dist(r, ps.last() as int) < d {
            1int
        } else {
            0int
        }
    }
}

/// How many positions of `ps` lie below `p`.
pub open spec fn count_below(ps: Seq<u16>, p: int) -> int
    decreases ps.len(),
{
    if ps.len() == 0 {
        0
    } else {
        count_below(ps.drop_last(), p) + if (ps.last() as int) < p {
            1int
        } else {
            0int
        }
    }
}

/// What a token with several legal positions contributes: the chosen
/// position's distance, the least and greatest distance and position among
/// the legal ones, and the chosen one's rank by distance and by position
/// (0 for the first; 0 when it is not among them).
#[derive(Clone, Copy, Debug, PartialEq, Eq, Structural)]
pub struct TieEvent {
    pub chosen_dist: u16,
    pub min_dist: u16,
    pub max_dist: u16,
    pub min_pos: u16,
    pub max_pos: u16,
    pub rank_dist: usize,
    pub rank_pos: usize,
}

/// The event of a chosen position `chosen` among the legal positions `ps`
/// (increasing) for head `r`.
pub open spec fn tie_event(r: int, ps: Seq<u16>, chosen: u16) -> TieEvent {
    let cd = ring_dist(r, chosen as int);
    TieEvent {
        chosen_dist: cd as u16,
        min_dist: min_dist(r, ps) as u16,
        max_dist: max_dist(r, ps) as u16,
        min_pos: ps[0],
        max_pos: ps.last(),
        rank_dist: (if exists|i: int| 0 <= i < ps.len() && #[trigger] ring_dist(r, ps[i] as int) == cd {
            count_closer_than(r, ps, cd)
        } else {
            0
        }) as usize,
        rank_pos: (if ps.contains(chosen) {
            count_below(ps, chosen as int)
        } else {
            0
        }) as usize,
    }
}

/// Distances back lie in `0..4096`.
proof fn lemma_ring_dist_range(r: int, p: int)
    ensures
        0 <= ring_dist(r, p) < 4096,
{
    crate::model::lemma_mod_basics(r - p);
}

/// Computes the event of `chosen` among the legal positions `ps`.
pub fn tie_event_of(ps: &Vec<u16>, r: usize, chosen: u16) -> (e: TieEvent)
    requires
        ps@.len() > 1,
        r < 4096,
        chosen < 4096,
        forall|i: int| 0 <= i < ps@.len() ==> #[trigger] ps@[i] < 4096,
        forall|a: int, b: int| 0 <= a < b < ps@.len() ==> ps@[a] < ps@[b],
    ensures
        e == tie_event(r as int, ps@, chosen),
{
    let cd = dist_back(r, chosen);
    let n = ps.len();
    let mut mn = dist_back(r, ps[0]);
    let mut mx = mn;
    let mut closer: usize = 0;
    let mut below: usize = 0;
    let mut has_d = false;
    let mut has_p = false;
    let mut i: usize = 0;
    proof {
        lemma_ring_dist_range(r as int, ps@[0] as int);
    }
    while i < n
        invariant
            n == ps@.len(),
            n > 1,
            r < 4096,
            chosen < 4096,
            i <= n,
            forall|j: int| 0 <= j < ps@.len() ==> #[trigger] ps@[j] < 4096,
            cd as int == ring_dist(r as int, chosen as int),
            i > 0 ==> mn as int == min_dist(r as int, ps@.take(i as int)),
            i > 0 ==> mx as int == max_dist(r as int, ps@.take(i as int)),
            i == 0 ==> mn as int == ring_dist(r as int, ps@[0] as int) && mx == mn,
            closer as int == count_closer_than(r as int, ps@.take(i as int), cd as int),
            below as int == count_below(ps@.take(i as int), chosen as int),
            closer <= i,
            below <= i,
            has_d <==> exists|j: int| 0 <= j < i && #[trigger] ring_dist(r as int, ps@[j] as int) == cd,
            has_p <==> ps@.take(i as int).contains(chosen),
        decreases n - i,
    {
        let p = ps[i];
        let d = dist_back(r, p);
        let ghost pre = ps@.take(i as int);
        let ghost pre1 = ps@.take(i + 1);
        proof {
            assert(pre1.drop_last() =~= pre);
            assert(pre1.last() == p);
            lemma_ring_dist_range(r as int, p as int);
            if i == 0 {
                assert(pre1 =~= seq![p]);
            }
        }
        if i > 0 {
            if d < mn {
                mn = d;
            }
            if d > mx {
                mx = d;
            }
        } else {
            assert(max_dist(r as int, pre1) == ring_dist(r as int, p as int)) by {
                assert(pre1.drop_last() =~= Seq::<u16>::empty());
                assert(max_dist(r as int, Seq::<u16>::empty()) == 0);
            }
        }
        if d < cd {
            closer += 1;
        }
        if p < chosen {
            below += 1;
        }
        if d == cd {
            has_d = true;
        }
        if p == chosen {
            has_p = true;
        }
        proof {
            if pre1.contains(chosen) && !pre.contains(chosen) {
                let j = choose|j: int| 0 <= j < pre1.len() && pre1[j] == chosen;
                if j < i {
                    assert(pre[j] == chosen);
                }
            }
            if pre.contains(chosen) {
                let j = choose|j: int| 0 <= j < pre.len() && pre[j] == chosen;
                assert(pre1[j] == chosen);
            }
            if p == chosen {
                assert(pre1[i as int] == chosen);
            }
        }
        i += 1;
    }
    proof {
        assert(ps@.take(n as int) =~= ps@);
    }
    let rank_dist = if has_d {
        closer
    } else {
        0
    };
    let rank_pos = if has_p {
        below
    } else {
        0
    };
    TieEvent {
        chosen_dist: cd,
        min_dist: mn,
        max_dist: mx,
        min_pos: ps[0],
        max_pos: ps[n - 1],
        rank_dist,
        rank_pos,
    }
}

/// The elements of a legal list are increasing ring positions, exactly
/// those from which the match holds.
pub proof fn lemma_legal_list(ring: Seq<u8>, r: int, target: Seq<u8>, len: int, n: int)
    requires
        0 <= n <= 4096,
    ensures
        forall|i: int|
            0 <= i < legal_list(ring, r, target, len, n).len() ==> #[trigger] legal_list(
                ring,
                r,
                target,
                len,
                n,
            )[i] < n && match_holds(ring, r, legal_list(ring, r, target, len, n)[i] as int, target, len),
        forall|a: int, b: int|
            0 <= a < b < legal_list(ring, r, target, len, n).len() ==> legal_list(
                ring,
                r,
                target,
                len,
                n,
            )[a] < legal_list(ring, r, target, len, n)[b],
        forall|q: int|
            0 <= q < n && #[trigger] match_holds(ring, r, q, target, len) ==> legal_list(
                ring,
                r,
                target,
                len,
                n,
            ).contains(q as u16),
        legal_list(ring, r, target, len, n).len() <= n,
    decreases n,
{
    if n > 0 {
        lemma_legal_list(ring, r, target, len, n - 1);
        let prev = legal_list(ring, r, target, len, n - 1);
        let cur = legal_list(ring, r, target, len, n);
        if match_holds(ring, r, n - 1, target, len) {
            assert(cur == prev.push((n - 1) as u16));
            assert forall|q: int|
                0 <= q < n && #[trigger] match_holds(ring, r, q, target, len) implies cur.contains(
                q as u16,
            ) by {
                if q < n - 1 {
                    let i = choose|i: int| 0 <= i < prev.len() && prev[i] == q as u16;
                    assert(cur[i] == q as u16);
                } else {
                    assert(cur[prev.len() as int] == q as u16);
                }
            }
        }
    }
}

/// The least distance is at most that of any listed position.
pub proof fn lemma_min_dist_le(r: int, ps: Seq<u16>, i: int)
    requires
        0 <= i < ps.len(),
    ensures
        min_dist(r, ps) <= ring_dist(r, ps[i] as int),
    decreases ps.len(),
{
    if ps.len() > 1 && i < ps.len() - 1 {
        lemma_min_dist_le(r, ps.drop_last(), i);
    }
}

/// Over a non-empty list of positions, the least and greatest distances
/// bound every listed distance and are each the distance of some listed
/// position.
pub proof fn lemma_dist_extremes(r: int, ps: Seq<u16>)
    requires
        ps.len() > 0,
    ensures
        forall|i: int|
            0 <= i < ps.len() ==> min_dist(r, ps) <= #[trigger] ring_dist(r, ps[i] as int) <= max_dist(r, ps),
        exists|i: int| 0 <= i < ps.len() && #[trigger] ring_dist(r, ps[i] as int) == min_dist(r, ps),
        exists|j: int| 0 <= j < ps.len() && #[trigger] ring_dist(r, ps[j] as int) == max_dist(r, ps),
    decreases ps.len(),
{
    let n = ps.len() as int;
    if n == 1 {
        assert(ring_dist(r, ps[0] as int) == min_dist(r, ps));
        assert(max_dist(r, ps.drop_last()) == 0);
        assert(ring_dist(r, ps[0] as int) >= 0) by {
            crate::model::lemma_mod_basics(r - ps[0] as int);
        }
        assert(ring_dist(r, ps[0] as int) == max_dist(r, ps));
    } else {
        let init = ps.drop_last();
        lemma_dist_extremes(r, init);
        assert forall|i: int| 0 <= i < n implies min_dist(r, ps) <= #[trigger] ring_dist(r, ps[i] as int)
            <= max_dist(r, ps) by {
            if i < n - 1 {
                assert(init[i] == ps[i]);
            }
        }
        let i0 = choose|i: int| 0 <= i < init.len() && #[trigger] ring_dist(r, init[i] as int) == min_dist(r, init);
        let j0 = choose|j: int| 0 <= j < init.len() && #[trigger] ring_dist(r, init[j] as int) == max_dist(r, init);
        assert(init[i0] == ps[i0] && init[j0] == ps[j0]);
        assert(ring_dist(r, ps[n - 1] as int) == ring_dist(r, ps.last() as int));
    }
}

/// Adds one, wrapping around at 2^64 as a release build does.
pub open spec fn bump(x: u64) -> u64 {
    x.wrapping_add(1)
}

/// A histogram with one more count in bucket `i`, grown with zero buckets
/// as far as needed.
pub open spec fn hist_bump(h: Seq<u64>, i: int) -> Seq<u64> {
    let g = if h.len() <= i {
        h + Seq::new((i + 1 - h.len()) as nat, |j: int| 0u64)
    } else {
        h
    };
    g.update(i, bump(g[i]))
}

/// Adds a count to bucket `i` of a histogram, growing it as needed.
fn hist_add(h: &mut Vec<u64>, i: usize)
    requires
        i < usize::MAX,
    ensures
        final(h)@ == hist_bump(old(h)@, i as int),
{
    if h.len() <= i {
        h.resize(i + 1, 0);
        proof {
            let g = old(h)@ + Seq::new((i + 1 - old(h)@.len()) as nat, |j: int| 0u64);
            assert(h@ =~= g);
        }
    }
    let v = h[i];
    h.set(i, v.wrapping_add(1));
}

/// The tallies over all files processed so far.
pub struct Stats {
    pub files: u64,
    pub files_failed: u64,
    pub total_tokens: u64,
    pub total_match_tokens: u64,
    /// Match tokens whose length several positions reproduce.
    pub total_multi_pos_tokens: u64,
    /// Tied tokens where the chosen position is the nearest one.
    pub h_min_dist: u64,
    /// ... the farthest one.
    pub h_max_dist: u64,
    /// ... the lowest position.
    pub h_min_pos: u64,
    /// ... the highest position.
    pub h_max_pos: u64,
    /// Counts of the chosen position's rank by distance (0 = nearest).
    pub rank_dist_asc: Vec<u64>,
    /// Counts of the chosen position's rank by position (0 = lowest).
    pub rank_pos_asc: Vec<u64>,
    /// Files with tied tokens all of whose chosen positions are the nearest.
    pub files_full_min_dist: u64,
    pub files_full_max_dist: u64,
    pub files_full_min_pos: u64,
    pub files_full_max_pos: u64,
    /// Counts of the chosen distance.
    pub chosen_dist_hist: Vec<u64>,
    /// Counts of the chosen distance minus the least distance.
    pub chosen_minus_min_hist: Vec<u64>,
    /// The least chosen distance seen (0 while none was).
    pub chosen_dist_min_observed: u16,
    pub chosen_dist_max_observed: u16,
}

/// `Stats` with its histograms as sequences.
pub struct StatsView {
    pub files: u64,
    pub files_failed: u64,
    pub total_tokens: u64,
    pub total_match_tokens: u64,
    pub total_multi_pos_tokens: u64,
    pub h_min_dist: u64,
    pub h_max_dist: u64,
    pub h_min_pos: u64,
    pub h_max_pos: u64,
    pub rank_dist_asc: Seq<u64>,
    pub rank_pos_asc: Seq<u64>,
    pub files_full_min_dist: u64,
    pub files_full_max_dist: u64,
    pub files_full_min_pos: u64,
    pub files_full_max_pos: u64,
    pub chosen_dist_hist: Seq<u64>,
    pub chosen_minus_min_hist: Seq<u64>,
    pub chosen_dist_min_observed: u16,
    pub chosen_dist_max_observed: u16,
}

impl View for Stats {
    type V = StatsView;

    open spec fn view(&self) -> StatsView {
        StatsView {
            files: self.files,
            files_failed: self.files_failed,
            total_tokens: self.total_tokens,
            total_match_tokens: self.total_match_tokens,
            total_multi_pos_tokens: self.total_multi_pos_tokens,
            h_min_dist: self.h_min_dist,
            h_max_dist: self.h_max_dist,
            h_min_pos: self.h_min_pos,
            h_max_pos: self.h_max_pos,
            rank_dist_asc: self.rank_dist_asc@,
            rank_pos_asc: self.rank_pos_asc@,
            files_full_min_dist: self.files_full_min_dist,
            files_full_max_dist: self.files_full_max_dist,
            files_full_min_pos: self.files_full_min_pos,
            files_full_max_pos: self.files_full_max_pos,
            chosen_dist_hist: self.chosen_dist_hist@,
            chosen_minus_min_hist: self.chosen_minus_min_hist@,
            chosen_dist_min_observed: self.chosen_dist_min_observed,
            chosen_dist_max_observed: self.chosen_dist_max_observed,
        }
    }
}

impl Stats {
    /// Empty tallies.
    pub fn new() -> (s: Stats)
        ensures
            s@ == (StatsView {
                files: 0,
                files_failed: 0,
                total_tokens: 0,
                total_match_tokens: 0,
                total_multi_pos_tokens: 0,
                h_min_dist: 0,
                h_max_dist: 0,
                h_min_pos: 0,
                h_max_pos: 0,
                rank_dist_asc: Seq::empty(),
                rank_pos_asc: Seq::empty(),
                files_full_min_dist: 0,
                files_full_max_dist: 0,
                files_full_min_pos: 0,
                files_full_max_pos: 0,
                chosen_dist_hist: Seq::empty(),
                chosen_minus_min_hist: Seq::empty(),
                chosen_dist_min_observed: 0,
                chosen_dist_max_observed: 0,
            }),
    {
        Stats {
            files: 0,
            files_failed: 0,
            total_tokens: 0,
            total_match_tokens: 0,
            total_multi_pos_tokens: 0,
            h_min_dist: 0,
            h_max_dist: 0,
            h_min_pos: 0,
            h_max_pos: 0,
            rank_dist_asc: Vec::new(),
            rank_pos_asc: Vec::new(),
            files_full_min_dist: 0,
            files_full_max_dist: 0,
            files_full_min_pos: 0,
            files_full_max_pos: 0,
            chosen_dist_hist: Vec::new(),
            chosen_minus_min_hist: Vec::new(),
            chosen_dist_min_observed: 0,
            chosen_dist_max_observed: 0,
        }
    }
}

/// Per file: whether every tied token so far chose the nearest, farthest,
/// lowest, highest position, and whether there was a tied token.
#[derive(Clone, Copy, Debug, PartialEq, Eq, Structural)]
pub struct FileFlags {
    pub full_min_dist: bool,
    pub full_max_dist: bool,
    pub full_min_pos: bool,
    pub full_max_pos: bool,
    pub had_multi: bool,
}

/// The tallies after one tied token chose `chosen` with event `e`.
pub open spec fn apply_event(v: StatsView, e: TieEvent, chosen: u16) -> StatsView {
    let cd = e.chosen_dist;
    StatsView {
        total_multi_pos_tokens: bump(v.total_multi_pos_tokens),
        chosen_dist_hist: hist_bump(v.chosen_dist_hist, cd as int),
        chosen_dist_min_observed: if v.chosen_dist_min_observed == 0 || cd < v.chosen_dist_min_observed {
            cd
        } else {
            v.chosen_dist_min_observed
        },
        chosen_dist_max_observed: if cd > v.chosen_dist_max_observed {
            cd
        } else {
            v.chosen_dist_max_observed
        },
        chosen_minus_min_hist: hist_bump(v.chosen_minus_min_hist, cd - e.min_dist),
        h_min_dist: if cd == e.min_dist {
            bump(v.h_min_dist)
        } else {
            v.h_min_dist
        },
        h_max_dist: if cd == e.max_dist {
            bump(v.h_max_dist)
        } else {
            v.h_max_dist
        },
        h_min_pos: if chosen == e.min_pos {
            bump(v.h_min_pos)
        } else {
            v.h_min_pos
        },
        h_max_pos: if chosen == e.max_pos {
            bump(v.h_max_pos)
        } else {
            v.h_max_pos
        },
        rank_dist_asc: hist_bump(v.rank_dist_asc, e.rank_dist as int),
        rank_pos_asc: hist_bump(v.rank_pos_asc, e.rank_pos as int),
        ..v
    }
}

/// The file flags after one tied token chose `chosen` with event `e`.
pub open spec fn apply_flags(f: FileFlags, e: TieEvent, chosen: u16) -> FileFlags {
    FileFlags {
        full_min_dist: f.full_min_dist && e.chosen_dist == e.min_dist,
        full_max_dist: f.full_max_dist && e.chosen_dist == e.max_dist,
        full_min_pos: f.full_min_pos && chosen == e.min_pos,
        full_max_pos: f.full_max_pos && chosen == e.max_pos,
        had_multi: true,
    }
}

/// Where the scan of a file stands: tallies, flags, input bytes consumed,
/// and whether a literal past the end stopped it.
pub struct ScanPoint {
    pub v: StatsView,
    pub f: FileFlags,
    pub s: int,
    pub stopped: bool,
}

/// One token of the scan.  The ring always holds the input bytes consumed
/// so far; a literal past the end of the input stops the scan; a match that
/// runs past the end consumes the rest of the input; any other match is
/// checked against every ring position and, when several reproduce it,
/// tallied.
#[verifier::opaque]
pub open spec fn gamma_token(input: Seq<u8>, p: ScanPoint, t: Token) -> ScanPoint {
    if p.stopped {
        p
    } else {
        let v1 = StatsView { total_tokens: bump(p.v.total_tokens), ..p.v };
        match t {
            Token::Literal(_) => if p.s >= input.len() {
                ScanPoint { v: v1, stopped: true, ..p }
            } else {
                ScanPoint { v: v1, s: p.s + 1, ..p }
            },
            Token::Match { pos, len } => {
                let v2 = StatsView { total_match_tokens: bump(v1.total_match_tokens), ..v1 };
                if p.s + len > input.len() {
                    ScanPoint { v: v2, s: input.len() as int, ..p }
                } else {
                    let ps = legal_list(
                        ring_of(input.take(p.s)),
                        head_of(p.s),
                        input.skip(p.s),
                        len as int,
                        4096,
                    );
                    if ps.len() > 1 {
                        let e = tie_event(head_of(p.s), ps, pos);
                        ScanPoint {
                            v: apply_event(v2, e, pos),
                            f: apply_flags(p.f, e, pos),
                            s: p.s + len,
                            stopped: false,
                        }
                    } else {
                        ScanPoint { v: v2, s: p.s + len, ..p }
                    }
                }
            },
        }
    }
}

/// The scan after the first `k` tokens.
pub open spec fn gamma_tokens(input: Seq<u8>, ts: Seq<Token>, k: int, p0: ScanPoint) -> ScanPoint
    decreases k,
{
    if k <= 0 {
        p0
    } else {
        gamma_token(input, gamma_tokens(input, ts, k - 1, p0), ts[k - 1])
    }
}

/// The tallies once a file's scan is over.
pub open spec fn finish_file(v: StatsView, f: FileFlags) -> StatsView {
    StatsView {
        files_full_min_dist: if f.had_multi && f.full_min_dist {
            bump(v.files_full_min_dist)
        } else {
            v.files_full_min_dist
        },
        files_full_max_dist: if f.had_multi && f.full_max_dist {
            bump(v.files_full_max_dist)
        } else {
            v.files_full_max_dist
        },
        files_full_min_pos: if f.had_multi && f.full_min_pos {
            bump(v.files_full_min_pos)
        } else {
            v.files_full_min_pos
        },
        files_full_max_pos: if f.had_multi && f.full_max_pos {
            bump(v.files_full_max_pos)
        } else {
            v.files_full_max_pos
        },
        files: bump(v.files),
        ..v
    }
}

/// The scan of a file before its first token.
pub open spec fn start_point(v: StatsView) -> ScanPoint {
    ScanPoint {
        v,
        f: FileFlags {
            full_min_dist: true,
            full_max_dist: true,
            full_min_pos: true,
            full_max_pos: true,
            had_multi: false,
        },
        s: 0,
        stopped: false,
    }
}

/// The tallies after scanning one file's tokens over its input.
pub open spec fn file_tallies(v: StatsView, input: Seq<u8>, ts: Seq<Token>) -> StatsView {
    let end = gamma_tokens(input, ts, ts.len() as int, start_point(v));
    finish_file(end.v, end.f)
}

/// The decoding of a prefix of a token stream is a prefix of its decoding.
pub proof fn lemma_decode_take_prefix(ts: Seq<Token>, k: int)
    requires
        0 <= k <= ts.len(),
    ensures
        decode(ts.take(k)).len() <= decode(ts).len(),
        decode(ts.take(k)) == decode(ts).take(decode(ts.take(k)).len() as int),
    decreases ts.len() - k,
{
    if k == ts.len() {
        assert(ts.take(k) =~= ts);
    } else {
        lemma_decode_take_prefix(ts, k + 1);
        assert(ts.take(k + 1) =~= ts.take(k).push(ts[k]));
        lemma_decode_push(ts.take(k), ts[k]);
        let a = decode(ts.take(k));
        let b = decode(ts.take(k + 1));
        assert(b.take(a.len() as int) =~= a);
        assert(decode(ts).take(b.len() as int).take(a.len() as int) =~= decode(ts).take(
            a.len() as int,
        ));
    }
}

/// When the input is what the tokens decode to, a match token that fits in
/// the input is legal at its own position, and it consumes its length.
pub proof fn lemma_chosen_legal(input: Seq<u8>, ts: Seq<Token>, k: int)
    requires
        0 <= k < ts.len(),
        forall|i: int| 0 <= i < ts.len() ==> #[trigger] token_wf(ts[i]),
        input.len() <= decode(ts).len(),
        input == decode(ts).take(input.len() as int),
        ts[k] matches Token::Match { len, .. } && decode(ts.take(k)).len() + len <= input.len(),
    ensures
        ({
            let s = decode(ts.take(k)).len() as int;
            match ts[k] {
                Token::Match { pos, len } => {
                    &&& match_holds(
                        ring_of(input.take(s)),
                        head_of(s),
                        pos as int,
                        input.skip(s),
                        len as int,
                    )
                    &&& decode(ts.take(k + 1)).len() == s + len
                    &&& input.take(s) == decode(ts.take(k))
                },
                Token::Literal(_) => true,
            }
        }),
{
    let out = decode(ts.take(k));
    let s = out.len() as int;
    let t = ts[k];
    assert(token_wf(t));
    if let Token::Match { pos, len } = t {
        assert(ts.take(k + 1) =~= ts.take(k).push(t));
        lemma_decode_push(ts.take(k), t);
        lemma_ring_of_len(out);
        lemma_expand_len(ring_of(out), head_of(s), t);
        lemma_decode_take_prefix(ts, k + 1);
        let b = decode(ts.take(k + 1));
        assert(b.len() == s + len);
        assert(b =~= input.take(s + len));
        assert(out =~= b.take(s));
        assert(out =~= input.take(s));
        let target = input.skip(s);
        lemma_copy_matches(ring_of(out), head_of(s), pos as int, target, len as nat);
        assert(expand(t, out) =~= b.subrange(s, s + len));
        assert(target.take(len as int) =~= input.subrange(s, s + len));
    }
}

/// Writes the next `count` input bytes (fewer at the end of the input) into
/// the ring.
pub(crate) fn advance(ring: &mut Vec<u8>, r: &mut usize, s: &mut usize, input: &[u8], count: usize)
    requires
        old(ring)@ == ring_of(input@.take(*old(s) as int)),
        *old(r) as int == head_of(*old(s) as int),
        *old(s) <= input@.len(),
    ensures
        *final(s) as int == (if *old(s) + count <= input@.len() {
            *old(s) + count
        } else {
            input@.len() as int
        }),
        final(ring)@ == ring_of(input@.take(*final(s) as int)),
        *final(r) as int == head_of(*final(s) as int),
{
    let n = input.len();
    let mut i: usize = 0;
    while i < count && *s < n
        invariant
            n == input@.len(),
            *s <= n,
            i <= count,
            *s == *old(s) + i,
            ring@ == ring_of(input@.take(*s as int)),
            *r as int == head_of(*s as int),
        decreases count - i,
    {
        let ghost w = input@.take(*s as int);
        proof {
            lemma_ring_of_len(w);
            crate::model::lemma_mod_basics(0xfee + *s as int);
            lemma_ring_of_concat(w, seq![input@[*s as int]]);
            assert(w + seq![input@[*s as int]] =~= input@.take(*s + 1));
            crate::model::lemma_mod_add(0xfee + *s as int, 1);
        }
        push_byte(ring, r, input[*s]);
        *s = *s + 1;
        i += 1;
    }
}

/// Tallies one tied token.
fn tally_event(stats: &mut Stats, flags: &mut FileFlags, e: TieEvent, chosen: u16)
    requires
        e.chosen_dist >= e.min_dist,
        e.chosen_dist < 4096,
        e.rank_dist <= 4096,
        e.rank_pos <= 4096,
    ensures
        final(stats)@ == apply_event(old(stats)@, e, chosen),
        *final(flags) == apply_flags(*old(flags), e, chosen),
{
    let cd = e.chosen_dist;
    stats.total_multi_pos_tokens = stats.total_multi_pos_tokens.wrapping_add(1);
    hist_add(&mut stats.chosen_dist_hist, cd as usize);
    if stats.chosen_dist_min_observed == 0 || cd < stats.chosen_dist_min_observed {
        stats.chosen_dist_min_observed = cd;
    }
    if cd > stats.chosen_dist_max_observed {
        stats.chosen_dist_max_observed = cd;
    }
    hist_add(&mut stats.chosen_minus_min_hist, (cd - e.min_dist) as usize);
    if cd == e.min_dist {
        stats.h_min_dist = stats.h_min_dist.wrapping_add(1);
    } else {
        flags.full_min_dist = false;
    }
    if cd == e.max_dist {
        stats.h_max_dist = stats.h_max_dist.wrapping_add(1);
    } else {
        flags.full_max_dist = false;
    }
    if chosen == e.min_pos {
        stats.h_min_pos = stats.h_min_pos.wrapping_add(1);
    } else {
        flags.full_min_pos = false;
    }
    if chosen == e.max_pos {
        stats.h_max_pos = stats.h_max_pos.wrapping_add(1);
    } else {
        flags.full_max_pos = false;
    }
    hist_add(&mut stats.rank_dist_asc, e.rank_dist);
    hist_add(&mut stats.rank_pos_asc, e.rank_pos);
    flags.had_multi = true;
}

/// Whether `input` is what `ts` decodes to, cut to its length.
pub open spec fn decodes_to(input: Seq<u8>, ts: Seq<Token>) -> bool {
    &&& forall|i: int| 0 <= i < ts.len() ==> #[trigger] token_wf(ts[i])
    &&& input.len() <= decode(ts).len()
    &&& input == decode(ts).take(input.len() as int)
}

/// A match token of the scan that fits in the input: its legal positions
/// and, when there are several, its tally.
fn gamma_fitting_match(
    stats: &mut Stats,
    flags: &mut FileFlags,
    ring: &Vec<u8>,
    r: usize,
    s: usize,
    input: &[u8],
    pos: u16,
    len: u8,
    Ghost(ts): Ghost<Seq<Token>>,
    Ghost(k): Ghost<int>,
)
    requires
        decodes_to(input@, ts),
        0 <= k < ts.len(),
        ts[k] == (Token::Match { pos, len }),
        ring@ == ring_of(input@.take(s as int)),
        r as int == head_of(s as int),
        s == decode(ts.take(k)).len(),
        s + len <= input@.len(),
    ensures
        ({
            let ps = legal_list(ring_of(input@.take(s as int)), head_of(s as int), input@.skip(s as int), len as int, 4096);
            if ps.len() > 1 {
                let e = tie_event(head_of(s as int), ps, pos);
                &&& final(stats)@ == apply_event(old(stats)@, e, pos)
                &&& *final(flags) == apply_flags(*old(flags), e, pos)
            } else {
                &&& final(stats)@ == old(stats)@
                &&& *final(flags) == *old(flags)
            }
        }),
{
    proof {
        assert(token_wf(ts[k]));
        lemma_chosen_legal(input@, ts, k);
        lemma_ring_of_len(input@.take(s as int));
        lemma_mod_basics(0xfee + s);
    }
    let legal = legal_positions(ring, r, input, s, len as usize);
    if legal.len() > 1 {
        proof {
            lemma_legal_list(ring@, r as int, input@.skip(s as int), len as int, 4096);
            assert(legal@.contains(pos));
            let i = choose|i: int| 0 <= i < legal@.len() && legal@[i] == pos;
            lemma_min_dist_le(r as int, legal@, i);
            lemma_min_dist_range(r as int, legal@);
            lemma_count_range(r as int, legal@, ring_dist(r as int, pos as int));
            lemma_count_below_range(legal@, pos as int);
            lemma_ring_dist_range(r as int, pos as int);
        }
        let e = tie_event_of(&legal, r, pos);
        tally_event(stats, flags, e, pos);
    }
}

/// One token of the scan, token `k` of `ts`.
fn gamma_one(
    stats: &mut Stats,
    flags: &mut FileFlags,
    ring: &mut Vec<u8>,
    r: &mut usize,
    s: &mut usize,
    input: &[u8],
    t: Token,
    Ghost(ts): Ghost<Seq<Token>>,
    Ghost(k): Ghost<int>,
) -> (stopped: bool)
    requires
        decodes_to(input@, ts),
        0 <= k < ts.len(),
        ts[k] == t,
        old(ring)@ == ring_of(input@.take(*old(s) as int)),
        *old(r) as int == head_of(*old(s) as int),
        *old(s) <= input@.len(),
        *old(s) == decode(ts.take(k)).len() || *old(s) == input@.len(),
    ensures
        ({
            let q = gamma_token(
                input@,
                ScanPoint { v: old(stats)@, f: *old(flags), s: *old(s) as int, stopped: false },
                t,
            );
            &&& final(stats)@ == q.v
            &&& *final(flags) == q.f
            &&& *final(s) as int == q.s
            &&& stopped == q.stopped
        }),
        final(ring)@ == ring_of(input@.take(*final(s) as int)),
        *final(r) as int == head_of(*final(s) as int),
        *final(s) <= input@.len(),
        !stopped ==> (*final(s) == decode(ts.take(k + 1)).len() || *final(s) == input@.len()),
{
    let ghost s0 = *s as int;
    proof {
        reveal(gamma_token);
        assert(token_wf(ts[k]));
        assert(ts.take(k + 1) =~= ts.take(k).push(t));
        lemma_decode_push(ts.take(k), t);
        lemma_ring_of_len(decode(ts.take(k)));
        lemma_expand_len(ring_of(decode(ts.take(k))), head_of(s0), t);
    }
    stats.total_tokens = stats.total_tokens.wrapping_add(1);
    match t {
        Token::Literal(_) => {
            if *s >= input.len() {
                return true;
            }
            advance(ring, r, s, input, 1);
            false
        },
        Token::Match { pos, len } => {
            stats.total_match_tokens = stats.total_match_tokens.wrapping_add(1);
            let l = len as usize;
            if l > input.len() - *s {
                advance(ring, r, s, input, l);
                return false;
            }
            gamma_fitting_match(stats, flags, ring, *r, *s, input, pos, len, Ghost(ts), Ghost(k));
            advance(ring, r, s, input, l);
            false
        },
    }
}

/// Distances are below 4096 and the least one is one of them.
proof fn lemma_min_dist_range(r: int, ps: Seq<u16>)
    ensures
        0 <= min_dist(r, ps) < 4096,
    decreases ps.len(),
{
    if ps.len() > 0 {
        lemma_ring_dist_range(r, ps.last() as int);
        if ps.len() > 1 {
            lemma_min_dist_range(r, ps.drop_last());
        } else {
            lemma_ring_dist_range(r, ps[0] as int);
        }
    }
}

/// Counts never exceed the length of the list.
proof fn lemma_count_range(r: int, ps: Seq<u16>, d: int)
    ensures
        0 <= count_closer_than(r, ps, d) <= ps.len(),
    decreases ps.len(),
{
    if ps.len() > 0 {
        lemma_count_range(r, ps.drop_last(), d);
    }
}

/// Counts never exceed the length of the list.
proof fn lemma_count_below_range(ps: Seq<u16>, p: int)
    ensures
        0 <= count_below(ps, p) <= ps.len(),
    decreases ps.len(),
{
    if ps.len() > 0 {
        lemma_count_below_range(ps.drop_last(), p);
    }
}

/// A stopped scan stays as it is.
proof fn lemma_gamma_stopped(input: Seq<u8>, ts: Seq<Token>, k: int, n: int, p0: ScanPoint)
    requires
        0 <= k <= n,
        gamma_tokens(input, ts, k, p0).stopped,
    ensures
        gamma_tokens(input, ts, n, p0) == gamma_tokens(input, ts, k, p0),
    decreases n - k,
{
    reveal(gamma_token);
    if n > k {
        lemma_gamma_stopped(input, ts, k, n - 1, p0);
    }
}

/// Scans one file's tokens over its input (what the tokens decode to) and
/// adds the file to the tallies.
#[verifier::spinoff_prover]
pub fn process_tokens(stats: &mut Stats, input: &[u8], tokens: &[Token])
    requires
        decodes_to(input@, tokens@),
    ensures
        final(stats)@ == file_tallies(old(stats)@, input@, tokens@),
{
    let ghost v0 = stats@;
    let mut flags = FileFlags {
        full_min_dist: true,
        full_max_dist: true,
        full_min_pos: true,
        full_max_pos: true,
        had_multi: false,
    };
    let mut ring = new_ring();
    let mut r: usize = 0x0fee;
    let mut s: usize = 0;
    proof {
        assert(input@.take(0) =~= Seq::<u8>::empty());
        assert(tokens@.take(0) =~= Seq::<Token>::empty());
        crate::model::lemma_mod_by(0xfee, 0, 0xfee);
    }
    let n = tokens.len();
    let mut k: usize = 0;
    let mut done = false;
    while k < n && !done
        invariant
            n == tokens@.len(),
            decodes_to(input@, tokens@),
            k <= n,
            gamma_tokens(input@, tokens@, k as int, start_point(v0)) == (ScanPoint {
                v: stats@,
                f: flags,
                s: s as int,
                stopped: done,
            }),
            ring@ == ring_of(input@.take(s as int)),
            r as int == head_of(s as int),
            s <= input@.len(),
            !done ==> (s == decode(tokens@.take(k as int)).len() || s == input@.len()),
        decreases n - k,
    {
        let t = tokens[k];
        let ghost pk = gamma_tokens(input@, tokens@, k as int, start_point(v0));
        let stopped = gamma_one(
            stats,
            &mut flags,
            &mut ring,
            &mut r,
            &mut s,
            input,
            t,
            Ghost(tokens@),
            Ghost(k as int),
        );
        proof {
            lemma_gamma_next(input@, tokens@, k as int, start_point(v0));
        }
        done = stopped;
        k += 1;
    }
    proof {
        if done {
            lemma_gamma_stopped(input@, tokens@, k as int, n as int, start_point(v0));
        }
    }
    finish_tally(stats, &flags);
}

/// One more token of the scan.
proof fn lemma_gamma_next(input: Seq<u8>, ts: Seq<Token>, k: int, p0: ScanPoint)
    requires
        0 <= k,
    ensures
        gamma_tokens(input, ts, k + 1, p0) == gamma_token(input, gamma_tokens(input, ts, k, p0), ts[k]),
{
}

/// Adds a finished file to the tallies.
fn finish_tally(stats: &mut Stats, flags: &FileFlags)
    ensures
        final(stats)@ == finish_file(old(stats)@, *flags),
{
    if flags.had_multi {
        if flags.full_min_dist {
            stats.files_full_min_dist = stats.files_full_min_dist.wrapping_add(1);
        }
        if flags.full_max_dist {
            stats.files_full_max_dist = stats.files_full_max_dist.wrapping_add(1);
        }
        if flags.full_min_pos {
            stats.files_full_min_pos = stats.files_full_min_pos.wrapping_add(1);
        }
        if flags.full_max_pos {
            stats.files_full_max_pos = stats.files_full_max_pos.wrapping_add(1);
        }
    }
    stats.files = stats.files.wrapping_add(1);
}

/// Why a file could not be scanned.
#[derive(Clone, Copy, Debug, PartialEq, Eq, Structural)]
pub enum GammaError {
    /// Shorter than a header, or without the LF2 magic.
    NotLf2,
    /// The payload does not decode to a full image.
    Decode(DecodeError),
}

/// Scans one LF2 file and adds it to the tallies; the tallies are left
/// unchanged when the file is not LF2 or does not decode.
pub fn process_file(data: &[u8], stats: &mut Stats) -> (res: Result<(), GammaError>)
    requires
        data@.len() >= 0x18 && has_magic(data@) ==> payload_start_of(data@) <= data@.len(),
    ensures
        data@.len() < 0x18 || !has_magic(data@) ==> res == Err::<(), GammaError>(GammaError::NotLf2)
            && final(stats)@ == old(stats)@,
        data@.len() >= 0x18 && has_magic(data@) ==> {
            let h = header_of(data@);
            let payload = data@.skip(h.payload_start as int);
            match res {
                Err(GammaError::NotLf2) => false,
                Err(GammaError::Decode(e)) => {
                    &&& final(stats)@ == old(stats)@
                    &&& (e == DecodeError::Malformed <==> parse(payload) is None)
                    &&& (e == DecodeError::TooShort ==> (parse(payload) matches Some(ts) && decode(
                        ts,
                    ).len() < h.width * h.height))
                },
                Ok(()) => parse(payload) matches Some(ts) && exists|k: int|
                    needed_prefix(ts, h.width * h.height, k) && final(stats)@ == file_tallies(
                        old(stats)@,
                        decode(ts.take(k)).take(h.width * h.height),
                        #[trigger] ts.take(k),
                    ),
            }
        },
{
    let (w, h, ps) = match parse_header_unchecked(data) {
        Ok(x) => x,
        Err(_) => {
            return Err(GammaError::NotLf2);
        },
    };
    let payload = slice_from(data, ps);
    match decompress_to_tokens(payload, w, h) {
        Err(e) => Err(GammaError::Decode(e)),
        Ok(d) => {
            proof {
                let ts = parse(payload@)->0;
                let k = d.tokens@.len() as int;
                assert(d.ring_input@.len() == w * h);
                assert(ts.take(k) == d.tokens@);
            }
            process_tokens(stats, d.ring_input.as_slice(), d.tokens.as_slice());
            Ok(())
        },
    }
}

/// The bytes of `data` from `start` on.
fn slice_from(data: &[u8], start: usize) -> (out: &[u8])
    requires
        start <= data@.len(),
    ensures
        out@ == data@.skip(start as int),
{
    let n = data.len();
    vstd::slice::slice_subrange(data, start, n)
}

/// Adds `x` and `y`, wrapping around at 2^64.
pub open spec fn wadd(x: u64, y: u64) -> u64 {
    x.wrapping_add(y)
}

/// Entry `i` of a histogram, 0 past its end.
pub open spec fn entry(h: Seq<u64>, i: int) -> u64 {
    if i < h.len() {
        h[i]
    } else {
        0
    }
}

/// Two histograms added bucket by bucket, as long as the longer one.
pub open spec fn hist_merge(a: Seq<u64>, b: Seq<u64>) -> Seq<u64> {
    let n = if a.len() < b.len() {
        b.len()
    } else {
        a.len()
    };
    Seq::new(n, |i: int| wadd(entry(a, i), entry(b, i)))
}

/// The tallies of two disjoint sets of files together.
pub open spec fn merged(a: StatsView, b: StatsView) -> StatsView {
    StatsView {
        files: wadd(a.files, b.files),
        files_failed: wadd(a.files_failed, b.files_failed),
        total_tokens: wadd(a.total_tokens, b.total_tokens),
        total_match_tokens: wadd(a.total_match_tokens, b.total_match_tokens),
        total_multi_pos_tokens: wadd(a.total_multi_pos_tokens, b.total_multi_pos_tokens),
        h_min_dist: wadd(a.h_min_dist, b.h_min_dist),
        h_max_dist: wadd(a.h_max_dist, b.h_max_dist),
        h_min_pos: wadd(a.h_min_pos, b.h_min_pos),
        h_max_pos: wadd(a.h_max_pos, b.h_max_pos),
        files_full_min_dist: wadd(a.files_full_min_dist, b.files_full_min_dist),
        files_full_max_dist: wadd(a.files_full_max_dist, b.files_full_max_dist),
        files_full_min_pos: wadd(a.files_full_min_pos, b.files_full_min_pos),
        files_full_max_pos: wadd(a.files_full_max_pos, b.files_full_max_pos),
        rank_dist_asc: hist_merge(a.rank_dist_asc, b.rank_dist_asc),
        rank_pos_asc: hist_merge(a.rank_pos_asc, b.rank_pos_asc),
        chosen_dist_hist: hist_merge(a.chosen_dist_hist, b.chosen_dist_hist),
        chosen_minus_min_hist: hist_merge(a.chosen_minus_min_hist, b.chosen_minus_min_hist),
        chosen_dist_min_observed: if a.chosen_dist_min_observed == 0 || (b.chosen_dist_min_observed
            != 0 && b.chosen_dist_min_observed < a.chosen_dist_min_observed) {
            b.chosen_dist_min_observed
        } else {
            a.chosen_dist_min_observed
        },
        chosen_dist_max_observed: if b.chosen_dist_max_observed > a.chosen_dist_max_observed {
            b.chosen_dist_max_observed
        } else {
            a.chosen_dist_max_observed
        },
    }
}

/// Adds histogram `b` into `a`, growing `a` as needed.
fn merge_hist(a: &mut Vec<u64>, b: &Vec<u64>)
    ensures
        final(a)@ == hist_merge(old(a)@, b@),
{
    if a.len() < b.len() {
        a.resize(b.len(), 0);
    }
    let ghost a1 = a@;
    assert forall|i: int| 0 <= i < a1.len() implies a1[i] == entry(old(a)@, i) by {
        if i >= old(a)@.len() {
            assert(a1[i] == 0);
        } else {
            assert(a1.subrange(0, old(a)@.len() as int)[i] == old(a)@[i]);
        }
    }
    let mut i: usize = 0;
    while i < b.len()
        invariant
            i <= b@.len(),
            a@.len() == a1.len(),
            b@.len() <= a1.len(),
            forall|j: int| 0 <= j < a1.len() ==> a1[j] == entry(old(a)@, j),
            forall|j: int| 0 <= j < i ==> #[trigger] a@[j] == wadd(entry(old(a)@, j), b@[j]),
            forall|j: int| i <= j < a1.len() ==> #[trigger] a@[j] == a1[j],
        decreases b@.len() - i,
    {
        let v = a[i].wrapping_add(b[i]);
        a.set(i, v);
        i += 1;
    }
    assert(a@ =~= hist_merge(old(a)@, b@));
}

impl Stats {
    /// Adds the tallies of `s` (other files) into these.
    pub fn merge(&mut self, s: &Stats)
        ensures
            final(self)@ == merged(old(self)@, s@),
    {
        self.files = self.files.wrapping_add(s.files);
        self.files_failed = self.files_failed.wrapping_add(s.files_failed);
        self.total_tokens = self.total_tokens.wrapping_add(s.total_tokens);
        self.total_match_tokens = self.total_match_tokens.wrapping_add(s.total_match_tokens);
        self.total_multi_pos_tokens = self.total_multi_pos_tokens.wrapping_add(s.total_multi_pos_tokens);
        self.h_min_dist = self.h_min_dist.wrapping_add(s.h_min_dist);
        self.h_max_dist = self.h_max_dist.wrapping_add(s.h_max_dist);
        self.h_min_pos = self.h_min_pos.wrapping_add(s.h_min_pos);
        self.h_max_pos = self.h_max_pos.wrapping_add(s.h_max_pos);
        self.files_full_min_dist = self.files_full_min_dist.wrapping_add(s.files_full_min_dist);
        self.files_full_max_dist = self.files_full_max_dist.wrapping_add(s.files_full_max_dist);
        self.files_full_min_pos = self.files_full_min_pos.wrapping_add(s.files_full_min_pos);
        self.files_full_max_pos = self.files_full_max_pos.wrapping_add(s.files_full_max_pos);
        merge_hist(&mut self.rank_dist_asc, &s.rank_dist_asc);
        merge_hist(&mut self.rank_pos_asc, &s.rank_pos_asc);
        merge_hist(&mut self.chosen_dist_hist, &s.chosen_dist_hist);
        merge_hist(&mut self.chosen_minus_min_hist, &s.chosen_minus_min_hist);
        if self.chosen_dist_min_observed == 0 || (s.chosen_dist_min_observed != 0
            && s.chosen_dist_min_observed < self.chosen_dist_min_observed) {
            self.chosen_dist_min_observed = s.chosen_dist_min_observed;
        }
        if s.chosen_dist_max_observed > self.chosen_dist_max_observed {
            self.chosen_dist_max_observed = s.chosen_dist_max_observed;
        }
    }
}

/// One token of a stream with the positions that could have produced it.
#[derive(Debug)]
pub struct ConstraintRow {
    pub token_idx: usize,
    /// Input bytes produced before the token.
    pub input_pos: usize,
    /// The write head before the token.
    pub ring_r: usize,
    pub is_match: bool,
    /// The match position, or the literal byte.
    pub leaf_pos: u32,
    /// The match length, or 1.
    pub leaf_len: u32,
    /// For a match: every position from which a match of its length
    /// reproduces the input there, increasing; empty for a literal.
    pub legal: Vec<u16>,
}

/// Whether `row` describes token `k` of `ts` over `input`.
pub open spec fn row_describes(input: Seq<u8>, ts: Seq<Token>, k: int, row: ConstraintRow) -> bool {
    let s = decode(ts.take(k)).len() as int;
    &&& row.token_idx == k
    &&& row.input_pos == s
    &&& row.ring_r == head_of(s)
    &&& match ts[k] {
        Token::Literal(b) => {
            &&& !row.is_match
            &&& row.leaf_pos == b as u32
            &&& row.leaf_len == 1
            &&& row.legal@ == Seq::<u16>::empty()
        },
        Token::Match { pos, len } => {
            &&& row.is_match
            &&& row.leaf_pos == pos as u32
            &&& row.leaf_len == len as u32
            &&& row.legal@ == legal_list(
                ring_of(input.take(s)),
                head_of(s),
                input.skip(s),
                len as int,
                4096,
            )
        },
    }
}

/// For every token of a stream that decodes to `input`, the positions from
/// which a match of its length reproduces the input there (each match's own
/// position among them).
pub fn constraint_rows(input: &[u8], tokens: &[Token]) -> (rows: Vec<ConstraintRow>)
    requires
        forall|i: int| 0 <= i < tokens@.len() ==> #[trigger] token_wf(tokens@[i]),
        decode(tokens@) == input@,
    ensures
        rows@.len() == tokens@.len(),
        forall|k: int| 0 <= k < rows@.len() ==> #[trigger] row_describes(input@, tokens@, k, rows@[k]),
        forall|k: int|
            0 <= k < rows@.len() && #[trigger] rows@[k].is_match ==> rows@[k].legal@.contains(
                rows@[k].leaf_pos as u16,
            ),
{
    let mut rows: Vec<ConstraintRow> = Vec::new();
    let mut ring = new_ring();
    let mut r: usize = 0x0fee;
    let mut s: usize = 0;
    proof {
        assert(input@.take(0) =~= Seq::<u8>::empty());
        assert(tokens@.take(0) =~= Seq::<Token>::empty());
        crate::model::lemma_mod_by(0xfee, 0, 0xfee);
        assert(input@.take(input@.len() as int) =~= input@);
    }
    let n = tokens.len();
    let mut k: usize = 0;
    while k < n
        invariant
            n == tokens@.len(),
            forall|i: int| 0 <= i < tokens@.len() ==> #[trigger] token_wf(tokens@[i]),
            decode(tokens@) == input@,
            decodes_to(input@, tokens@),
            k <= n,
            rows@.len() == k,
            forall|j: int| 0 <= j < k ==> #[trigger] row_describes(input@, tokens@, j, rows@[j]),
            forall|j: int|
                0 <= j < k && #[trigger] rows@[j].is_match ==> rows@[j].legal@.contains(
                    rows@[j].leaf_pos as u16,
                ),
            s == decode(tokens@.take(k as int)).len(),
            s <= input@.len(),
            ring@ == ring_of(input@.take(s as int)),
            r as int == head_of(s as int),
        decreases n - k,
    {
        let t = tokens[k];
        proof {
            assert(token_wf(tokens@[k as int]));
            assert(tokens@.take(k + 1) =~= tokens@.take(k as int).push(t));
            lemma_decode_push(tokens@.take(k as int), t);
            lemma_ring_of_len(decode(tokens@.take(k as int)));
            lemma_expand_len(ring_of(decode(tokens@.take(k as int))), head_of(s as int), t);
            lemma_decode_take_prefix(tokens@, k + 1);
        }
        let row = match t {
            Token::Literal(b) => ConstraintRow {
                token_idx: k,
                input_pos: s,
                ring_r: r,
                is_match: false,
                leaf_pos: b as u32,
                leaf_len: 1,
                legal: Vec::new(),
            },
            Token::Match { pos, len } => {
                proof {
                    lemma_chosen_legal(input@, tokens@, k as int);
                    lemma_legal_list(
                        ring@,
                        r as int,
                        input@.skip(s as int),
                        len as int,
                        4096,
                    );
                }
                let legal = legal_positions(&ring, r, input, s, len as usize);
                ConstraintRow {
                    token_idx: k,
                    input_pos: s,
                    ring_r: r,
                    is_match: true,
                    leaf_pos: pos as u32,
                    leaf_len: len as u32,
                    legal,
                }
            },
        };
        rows.push(row);
        let step = token_size_exec(&t);
        advance(&mut ring, &mut r, &mut s, input, step);
        k += 1;
    }
    rows
}

/// Totals over the match rows: how many, how many with exactly one legal
/// position, how many with another number, the sum and the largest number
/// of legal positions.
#[derive(Clone, Copy, Debug, PartialEq, Eq, Structural)]
pub struct ConstraintSummary {
    pub n_match_tokens: u64,
    pub n_unique_pos: u64,
    pub n_multi_pos: u64,
    pub sum_n_legal: u64,
    pub max_n_legal: u32,
}

/// The totals over the first `k` rows.
pub open spec fn summary_upto(rows: Seq<ConstraintRow>, k: int) -> ConstraintSummary
    decreases k,
{
    if k <= 0 {
        ConstraintSummary {
            n_match_tokens: 0,
            n_unique_pos: 0,
            n_multi_pos: 0,
            sum_n_legal: 0,
            max_n_legal: 0,
        }
    } else {
        let p = summary_upto(rows, k - 1);
        let row = rows[k - 1];
        let nl = row.legal@.len() as u32;
        if row.is_match {
            ConstraintSummary {
                n_match_tokens: bump(p.n_match_tokens),
                n_unique_pos: if nl == 1 {
                    bump(p.n_unique_pos)
                } else {
                    p.n_unique_pos
                },
                n_multi_pos: if nl == 1 {
                    p.n_multi_pos
                } else {
                    bump(p.n_multi_pos)
                },
                sum_n_legal: wadd(p.sum_n_legal, nl as u64),
                max_n_legal: if nl > p.max_n_legal {
                    nl
                } else {
                    p.max_n_legal
                },
            }
        } else {
            p
        }
    }
}

/// The totals over all rows.
pub fn constraint_summary(rows: &Vec<ConstraintRow>) -> (sum: ConstraintSummary)
    ensures
        sum == summary_upto(rows@, rows@.len() as int),
{
    let mut acc = ConstraintSummary {
        n_match_tokens: 0,
        n_unique_pos: 0,
        n_multi_pos: 0,
        sum_n_legal: 0,
        max_n_legal: 0,
    };
    let mut k: usize = 0;
    while k < rows.len()
        invariant
            k <= rows@.len(),
            acc == summary_upto(rows@, k as int),
        decreases rows@.len() - k,
    {
        let row = &rows[k];
        if row.is_match {
            let nl = row.legal.len() as u32;
            acc.n_match_tokens = acc.n_match_tokens.wrapping_add(1);
            if nl == 1 {
                acc.n_unique_pos = acc.n_unique_pos.wrapping_add(1);
            } else {
                acc.n_multi_pos = acc.n_multi_pos.wrapping_add(1);
            }
            acc.sum_n_legal = acc.sum_n_legal.wrapping_add(nl as u64);
            if nl > acc.max_n_legal {
                acc.max_n_legal = nl;
            }
        }
        k += 1;
    }
    acc
}

/// Whether token `t`, at scan point `p`, is a tied match whose chosen
/// position is the slot under the head (distance 0).
pub open spec fn zero_choice(input: Seq<u8>, p: ScanPoint, t: Token) -> bool {
    &&& !p.stopped
    &&& t matches Token::Match { pos, len } && p.s + len <= input.len() && legal_list(
        ring_of(input.take(p.s)),
        head_of(p.s),
        input.skip(p.s),
        len as int,
        4096,
    ).len() > 1 && ring_dist(head_of(p.s), pos as int) == 0
}

/// Where the scan stands after `k` tokens of a stream that decodes to the
/// input: within the input, and, unless stopped, at the decoded length of
/// the tokens so far or at the end of the input.
proof fn lemma_scan_pos(input: Seq<u8>, ts: Seq<Token>, k: int, p0: ScanPoint)
    requires
        decodes_to(input, ts),
        0 <= k <= ts.len(),
        p0.s == 0,
        !p0.stopped,
    ensures
        ({
            let p = gamma_tokens(input, ts, k, p0);
            &&& 0 <= p.s <= input.len()
            &&& !p.stopped ==> (p.s == decode(ts.take(k)).len() || p.s == input.len())
        }),
    decreases k,
{
    reveal(gamma_token);
    if k == 0 {
        assert(ts.take(0) =~= Seq::<Token>::empty());
    } else {
        lemma_scan_pos(input, ts, k - 1, p0);
        let t = ts[k - 1];
        assert(token_wf(t));
        assert(ts.take(k) =~= ts.take(k - 1).push(t));
        lemma_decode_push(ts.take(k - 1), t);
        lemma_ring_of_len(decode(ts.take(k - 1)));
        lemma_expand_len(ring_of(decode(ts.take(k - 1))), head_of(decode(ts.take(k - 1)).len() as int), t);
    }
}

/// Adding one more count to a histogram, then merging, is merging, then
/// adding the count.
proof fn lemma_hist_bump_merge(a: Seq<u64>, b: Seq<u64>, i: int)
    requires
        i >= 0,
    ensures
        hist_merge(hist_bump(a, i), b) == hist_bump(hist_merge(a, b), i),
{
    let l = hist_merge(hist_bump(a, i), b);
    let r = hist_bump(hist_merge(a, b), i);
    let ga = if a.len() <= i {
        a + Seq::new((i + 1 - a.len()) as nat, |j: int| 0u64)
    } else {
        a
    };
    let m = hist_merge(a, b);
    let gm = if m.len() <= i {
        m + Seq::new((i + 1 - m.len()) as nat, |j: int| 0u64)
    } else {
        m
    };
    assert(l.len() == r.len());
    assert forall|j: int| 0 <= j < l.len() implies l[j] == r[j] by {
        assert(entry(hist_bump(a, i), j) == if j == i {
            bump(entry(a, i))
        } else {
            entry(a, j)
        });
        assert(r[j] == if j == i {
            bump(entry(m, i))
        } else {
            entry(m, j)
        });
    }
    assert(l =~= r);
}

/// A tied token with a non-zero chosen distance tallied before or after a
/// merge gives the same tallies.
proof fn lemma_event_merge(a: StatsView, b: StatsView, e: TieEvent, c: u16)
    requires
        e.chosen_dist != 0,
        e.chosen_dist >= e.min_dist,
    ensures
        merged(apply_event(a, e, c), b) == apply_event(merged(a, b), e, c),
{
    let cd = e.chosen_dist;
    lemma_hist_bump_merge(a.chosen_dist_hist, b.chosen_dist_hist, cd as int);
    lemma_hist_bump_merge(a.chosen_minus_min_hist, b.chosen_minus_min_hist, cd - e.min_dist);
    lemma_hist_bump_merge(a.rank_dist_asc, b.rank_dist_asc, e.rank_dist as int);
    lemma_hist_bump_merge(a.rank_pos_asc, b.rank_pos_asc, e.rank_pos as int);
}

/// Finishing a file before or after a merge gives the same tallies.
proof fn lemma_finish_merge(v: StatsView, b: StatsView, f: FileFlags)
    ensures
        merged(finish_file(v, f), b) == finish_file(merged(v, b), f),
{
}

/// One token of a scan whose tallies were merged first.
proof fn lemma_token_merge(input: Seq<u8>, ts: Seq<Token>, k: int, p: ScanPoint, b: StatsView)
    requires
        decodes_to(input, ts),
        0 <= k < ts.len(),
        0 <= p.s <= input.len(),
        !p.stopped ==> (p.s == decode(ts.take(k)).len() || p.s == input.len()),
        !zero_choice(input, p, ts[k]),
    ensures
        gamma_token(input, ScanPoint { v: merged(p.v, b), ..p }, ts[k]) == (ScanPoint {
            v: merged(gamma_token(input, p, ts[k]).v, b),
            ..gamma_token(input, p, ts[k])
        }),
{
    reveal(gamma_token);
    let t = ts[k];
    let pm = ScanPoint { v: merged(p.v, b), ..p };
    if !p.stopped {
        let v1 = StatsView { total_tokens: bump(p.v.total_tokens), ..p.v };
        let m1 = StatsView { total_tokens: bump(pm.v.total_tokens), ..pm.v };
        assert(m1 == merged(v1, b));
        if let Token::Match { pos, len } = t {
            assert(token_wf(t));
            let v2 = StatsView { total_match_tokens: bump(v1.total_match_tokens), ..v1 };
            let m2 = StatsView { total_match_tokens: bump(m1.total_match_tokens), ..m1 };
            assert(m2 == merged(v2, b));
            if p.s + len <= input.len() {
                let ps = legal_list(ring_of(input.take(p.s)), head_of(p.s), input.skip(p.s), len as int, 4096);
                if ps.len() > 1 {
                    assert(p.s == decode(ts.take(k)).len());
                    lemma_chosen_legal(input, ts, k);
                    lemma_ring_of_len(input.take(p.s));
                    lemma_mod_basics(0xfee + p.s);
                    lemma_legal_list(ring_of(input.take(p.s)), head_of(p.s), input.skip(p.s), len as int, 4096);
                    assert(ps.contains(pos));
                    let i = choose|i: int| 0 <= i < ps.len() && ps[i] == pos;
                    lemma_min_dist_le(head_of(p.s), ps, i);
                    lemma_min_dist_range(head_of(p.s), ps);
                    lemma_ring_dist_range(head_of(p.s), pos as int);
                    let e = tie_event(head_of(p.s), ps, pos);
                    lemma_event_merge(v2, b, e, pos);
                }
            }
        }
    }
}

/// A scan whose starting tallies were merged with `b` is the scan from the
/// unmerged ones, with `b` merged into its tallies.
proof fn lemma_tokens_merge(input: Seq<u8>, ts: Seq<Token>, k: int, a: StatsView, b: StatsView)
    requires
        decodes_to(input, ts),
        0 <= k <= ts.len(),
        forall|j: int|
            0 <= j < k ==> !#[trigger] zero_choice(input, gamma_tokens(input, ts, j, start_point(a)), ts[j]),
    ensures
        gamma_tokens(input, ts, k, start_point(merged(a, b))) == (ScanPoint {
            v: merged(gamma_tokens(input, ts, k, start_point(a)).v, b),
            ..gamma_tokens(input, ts, k, start_point(a))
        }),
    decreases k,
{
    if k > 0 {
        lemma_tokens_merge(input, ts, k - 1, a, b);
        let p = gamma_tokens(input, ts, k - 1, start_point(a));
        lemma_scan_pos(input, ts, k - 1, start_point(a));
        assert(!zero_choice(input, p, ts[k - 1]));
        lemma_token_merge(input, ts, k - 1, p, b);
    }
}

/// Scanning a file, then merging the tallies of other files, gives what
/// merging them first and scanning the file after gives: workers that split
/// a corpus and are merged at the end report what one sequential run
/// reports.  This holds unless a tied token of the file chooses the slot
/// under the head (distance 0), which the running least distance treats as
/// "none seen yet".
pub proof fn lemma_file_tallies_merge(a: StatsView, b: StatsView, input: Seq<u8>, ts: Seq<Token>)
    requires
        decodes_to(input, ts),
        forall|k: int|
            0 <= k < ts.len() ==> !#[trigger] zero_choice(input, gamma_tokens(input, ts, k, start_point(a)), ts[k]),
    ensures
        merged(file_tallies(a, input, ts), b) == file_tallies(merged(a, b), input, ts),
{
    lemma_tokens_merge(input, ts, ts.len() as int, a, b);
    let e = gamma_tokens(input, ts, ts.len() as int, start_point(a));
    lemma_finish_merge(e.v, b, e.f);
}

} // verus!
