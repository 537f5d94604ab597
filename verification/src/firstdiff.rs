//! The first token at which two encodings of the same input differ, judged
//! against the match candidates available there: whether the first stream's
//! match is a candidate, how long the candidates get, and tallies over many
//! files.
use vstd::prelude::*;
use vstd::string::*;

use crate::text::{dec, hex, push_dec, push_hex};
use crate::token::{DivergenceInfo, UniToken};

verus! {

/// One match available at a ring state: a position and a length.
#[derive(Clone, Copy, Debug, PartialEq, Eq, Structural)]
pub struct MatchCandidate {
    pub pos: u16,
    pub len: u8,
}

/// How a token compares with the candidates at its position.
#[derive(Clone, Copy, Debug, PartialEq, Eq, Structural)]
pub struct CandStats {
    /// The token is a match and one of the candidates.
    pub leaf_in_candidates: bool,
    /// The longest candidate (0 without candidates).
    pub max_candidate_len: u8,
    /// For a match: candidates of its length at another position.
    pub same_len_different_pos_count: usize,
    /// For a match: candidates longer than it; for a literal: all candidates.
    pub longer_than_leaf_count: usize,
}

/// How many of the first `n` candidates satisfy `f`.
pub open spec fn count_where(cands: Seq<MatchCandidate>, f: spec_fn(MatchCandidate) -> bool, n: int) -> nat
    decreases n,
{
    if n <= 0 {
        0
    } else {
        count_where(cands, f, n - 1) + if f(cands[n - 1]) {
            1nat
        } else {
            0nat
        }
    }
}

/// The longest length among the first `n` candidates (0 for none).
pub open spec fn max_len_upto(cands: Seq<MatchCandidate>, n: int) -> u8
    decreases n,
{
    if n <= 0 {
        0
    } else {
        let m = max_len_upto(cands, n - 1);
        if cands[n - 1].len > m {
            cands[n - 1].len
        } else {
            m
        }
    }
}

/// The comparison of `leaf` with `cands`.
pub open spec fn cand_stats_spec(cands: Seq<MatchCandidate>, leaf: UniToken) -> CandStats {
    let n = cands.len() as int;
    CandStats {
        leaf_in_candidates: leaf.is_match && exists|i: int|
            0 <= i < n && #[trigger] cands[i].pos == leaf.pos && cands[i].len == leaf.len,
        max_candidate_len: max_len_upto(cands, n),
        same_len_different_pos_count: if leaf.is_match {
            count_where(cands, |c: MatchCandidate| c.len == leaf.len && c.pos != leaf.pos, n) as usize
        } else {
            0
        },
        longer_than_leaf_count: if leaf.is_match {
            count_where(cands, |c: MatchCandidate| c.len > leaf.len, n) as usize
        } else {
            n as usize
        },
    }
}

/// Compares a token with the candidates at its position.
pub fn candidate_stats(cands: &[MatchCandidate], leaf: &UniToken) -> (cs: CandStats)
    ensures
        cs == cand_stats_spec(cands@, *leaf),
{
    let n = cands.len();
    let mut found = false;
    let mut mx: u8 = 0;
    let mut same: usize = 0;
    let mut longer: usize = 0;
    let ghost fs = |c: MatchCandidate| c.len == leaf.len && c.pos != leaf.pos;
    let ghost fl = |c: MatchCandidate| c.len > leaf.len;
    let mut i: usize = 0;
    while i < n
        invariant
            n == cands@.len(),
            i <= n,
            fs == (|c: MatchCandidate| c.len == leaf.len && c.pos != leaf.pos),
            fl == (|c: MatchCandidate| c.len > leaf.len),
            found <==> exists|j: int|
                0 <= j < i && #[trigger] cands@[j].pos == leaf.pos && cands@[j].len == leaf.len,
            mx == max_len_upto(cands@, i as int),
            same == count_where(cands@, fs, i as int),
            longer == count_where(cands@, fl, i as int),
            same <= i,
            longer <= i,
        decreases n - i,
    {
        let c = cands[i];
        if c.pos == leaf.pos && c.len == leaf.len {
            found = true;
        }
        if c.len > mx {
            mx = c.len;
        }
        if c.len == leaf.len && c.pos != leaf.pos {
            same += 1;
        }
        if c.len > leaf.len {
            longer += 1;
        }
        i += 1;
    }
    CandStats {
        leaf_in_candidates: leaf.is_match && found,
        max_candidate_len: mx,
        same_len_different_pos_count: if leaf.is_match {
            same
        } else {
            0
        },
        longer_than_leaf_count: if leaf.is_match {
            longer
        } else {
            n
        },
    }
}

/// Tallies over the divergent files of a corpus.
pub struct HistTally {
    pub divergent: usize,
    /// The first stream's match is a candidate.
    pub leaf_in: usize,
    /// It is not, or the first stream has a literal there.
    pub leaf_out: usize,
    /// Counts by (first is a match, second is a match), index `2 * a + b`.
    pub kind_dist: Vec<usize>,
    /// For match/match: counts of the first length minus the second, index
    /// `delta + 255`.
    pub len_delta: Vec<usize>,
    /// For match/match: counts of the first position below (index 0), equal
    /// to (1) or above (2) the second.
    pub pos_sign: Vec<usize>,
}

impl HistTally {
    pub open spec fn wf(&self) -> bool {
        &&& self.kind_dist@.len() == 4
        &&& self.len_delta@.len() == 511
        &&& self.pos_sign@.len() == 3
    }

    /// Empty tallies.
    pub fn new() -> (t: HistTally)
        ensures
            t.wf(),
            t.divergent == 0,
            t.leaf_in == 0,
            t.leaf_out == 0,
            forall|i: int| 0 <= i < 4 ==> t.kind_dist@[i] == 0,
            forall|i: int| 0 <= i < 511 ==> t.len_delta@[i] == 0,
            forall|i: int| 0 <= i < 3 ==> t.pos_sign@[i] == 0,
    {
        HistTally {
            divergent: 0,
            leaf_in: 0,
            leaf_out: 0,
            kind_dist: zeros(4),
            len_delta: zeros(511),
            pos_sign: zeros(3),
        }
    }

    /// Records one divergent file: its first differing tokens `leaf` and
    /// `oku` and whether `leaf` is among the candidates there.
    pub fn record(&mut self, leaf: &UniToken, oku: &UniToken, leaf_in_candidates: bool)
        requires
            old(self).wf(),
        ensures
            final(self).wf(),
            final(self).divergent == old(self).divergent.wrapping_add(1),
            final(self).leaf_in == if leaf.is_match && leaf_in_candidates {
                old(self).leaf_in.wrapping_add(1)
            } else {
                old(self).leaf_in
            },
            final(self).leaf_out == if leaf.is_match && leaf_in_candidates {
                old(self).leaf_out
            } else {
                old(self).leaf_out.wrapping_add(1)
            },
            ({
                let k = 2 * (if leaf.is_match {
                    1int
                } else {
                    0int
                }) + if oku.is_match {
                    1int
                } else {
                    0int
                };
                final(self).kind_dist@ == old(self).kind_dist@.update(
                    k,
                    old(self).kind_dist@[k].wrapping_add(1),
                )
            }),
            leaf.is_match && oku.is_match ==> {
                let d = leaf.len - oku.len + 255;
                let sg = if leaf.pos < oku.pos {
                    0int
                } else if leaf.pos == oku.pos {
                    1int
                } else {
                    2int
                };
                &&& final(self).len_delta@ == old(self).len_delta@.update(
                    d,
                    old(self).len_delta@[d].wrapping_add(1),
                )
                &&& final(self).pos_sign@ == old(self).pos_sign@.update(
                    sg,
                    old(self).pos_sign@[sg].wrapping_add(1),
                )
            },
            !(leaf.is_match && oku.is_match) ==> final(self).len_delta@ == old(self).len_delta@
                && final(self).pos_sign@ == old(self).pos_sign@,
    {
        self.divergent = self.divergent.wrapping_add(1);
        if leaf.is_match && leaf_in_candidates {
            self.leaf_in = self.leaf_in.wrapping_add(1);
        } else {
            self.leaf_out = self.leaf_out.wrapping_add(1);
        }
        let k: usize = 2 * (if leaf.is_match {
            1
        } else {
            0
        }) + if oku.is_match {
            1
        } else {
            0
        };
        let v = self.kind_dist[k];
        self.kind_dist.set(k, v.wrapping_add(1));
        if leaf.is_match && oku.is_match {
            let d: usize = (leaf.len as usize + 255) - oku.len as usize;
            let v = self.len_delta[d];
            self.len_delta.set(d, v.wrapping_add(1));
            let sg: usize = if leaf.pos < oku.pos {
                0
            } else if leaf.pos == oku.pos {
                1
            } else {
                2
            };
            let v = self.pos_sign[sg];
            self.pos_sign.set(sg, v.wrapping_add(1));
        }
    }
}

/// `n` zero counters.
fn zeros(n: usize) -> (v: Vec<usize>)
    ensures
        v@.len() == n,
        forall|i: int| 0 <= i < n ==> v@[i] == 0,
{
    let mut v: Vec<usize> = Vec::new();
    let mut i: usize = 0;
    while i < n
        invariant
            i <= n,
            v@.len() == i,
            forall|j: int| 0 <= j < i ==> v@[j] == 0,
        decreases n - i,
    {
        v.push(0);
        i += 1;
    }
    v
}

/// "match" or "lit".
pub open spec fn kind_text(t: UniToken) -> Seq<char> {
    if t.is_match {
        "match"@
    } else {
        "lit"@
    }
}

/// The position and length columns of a token: `0x<pos>` and the length
/// for a match, `-` and `lit:0x<byte>` for a literal.
pub open spec fn pos_len_text(t: UniToken) -> Seq<char> {
    if t.is_match {
        "0x"@ + hex(t.pos as nat, 3) + ","@ + dec(t.len as nat)
    } else {
        "-,lit:0x"@ + hex(t.lit as nat, 2)
    }
}

/// One CSV line of the divergence report.
pub open spec fn csv_line_text(name: Seq<char>, d: DivergenceInfo, cs: CandStats, n_cands: nat, width: nat) -> Seq<char> {
    name + ","@ + dec(d.token_index as nat) + ","@ + dec(d.byte_offset as nat) + ","@ + dec(
        (d.s as nat % width) as nat,
    ) + ","@ + dec((d.s as nat / width) as nat) + ",0x"@ + hex(d.ring_r as nat, 3) + ","@
        + kind_text(d.leaf) + ","@ + pos_len_text(d.leaf) + ","@ + kind_text(d.oku) + ","@
        + pos_len_text(d.oku) + ","@ + (if cs.leaf_in_candidates {
        "1"@
    } else {
        "0"@
    }) + ","@ + dec(n_cands) + ","@ + dec(cs.max_candidate_len as nat) + ","@ + dec(
        cs.same_len_different_pos_count as nat,
    ) + ","@ + dec(cs.longer_than_leaf_count as nat)
}

fn push_pos_len(s: &mut String, t: &UniToken)
    ensures
        final(s)@ == old(s)@ + pos_len_text(*t),
{
    if t.is_match {
        s.append("0x");
        push_hex(s, t.pos as u64, 3);
        s.append(",");
        push_dec(s, t.len as u64);
    } else {
        s.append("-,lit:0x");
        push_hex(s, t.lit as u64, 2);
    }
}

fn push_kind(s: &mut String, t: &UniToken)
    ensures
        final(s)@ == old(s)@ + kind_text(*t),
{
    if t.is_match {
        s.append("match");
    } else {
        s.append("lit");
    }
}

/// The CSV line of one divergent file (`width` is the image width).
pub fn divergence_csv_line(name: &str, d: &DivergenceInfo, cs: &CandStats, n_cands: usize, width: u16) -> (line: String)
    requires
        width > 0,
    ensures
        line@ == csv_line_text(name@, *d, *cs, n_cands as nat, width as nat),
{
    let w = width as usize;
    let mut s = String::new();
    s.append(name);
    s.append(",");
    push_dec(&mut s, d.token_index as u64);
    s.append(",");
    push_dec(&mut s, d.byte_offset as u64);
    s.append(",");
    push_dec(&mut s, (d.s % w) as u64);
    s.append(",");
    push_dec(&mut s, (d.s / w) as u64);
    s.append(",0x");
    push_hex(&mut s, d.ring_r as u64, 3);
    s.append(",");
    push_kind(&mut s, &d.leaf);
    s.append(",");
    push_pos_len(&mut s, &d.leaf);
    s.append(",");
    push_kind(&mut s, &d.oku);
    s.append(",");
    push_pos_len(&mut s, &d.oku);
    s.append(",");
    if cs.leaf_in_candidates {
        s.append("1");
    } else {
        s.append("0");
    }
    s.append(",");
    push_dec(&mut s, n_cands as u64);
    s.append(",");
    push_dec(&mut s, cs.max_candidate_len as u64);
    s.append(",");
    push_dec(&mut s, cs.same_len_different_pos_count as u64);
    s.append(",");
    push_dec(&mut s, cs.longer_than_leaf_count as u64);
    s
}

/// `Match { pos: 0x<pos>, len: <len> }` or `Literal(0x<byte>)`.
pub open spec fn uni_desc_text(t: UniToken) -> Seq<char> {
    if t.is_match {
        "Match { pos: 0x"@ + hex(t.pos as nat, 3) + ", len: "@ + dec(t.len as nat) + " }"@
    } else {
        "Literal(0x"@ + hex(t.lit as nat, 2) + ")"@
    }
}

/// Describes a token for the single-file report.
pub fn uni_desc(t: &UniToken) -> (s: String)
    ensures
        s@ == uni_desc_text(*t),
{
    let mut s = String::new();
    if t.is_match {
        s.append("Match { pos: 0x");
        push_hex(&mut s, t.pos as u64, 3);
        s.append(", len: ");
        push_dec(&mut s, t.len as u64);
        s.append(" }");
    } else {
        s.append("Literal(0x");
        push_hex(&mut s, t.lit as u64, 2);
        s.append(")");
    }
    s
}

} // verus!
