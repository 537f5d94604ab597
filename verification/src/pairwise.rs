//! Tied candidates as training rows: for a match token whose longest
//! candidates come from two or more positions (but not too many), one row
//! per such candidate, with its distance from the head and whether it is
//! the one the stream used; and the history of the tokens before a tie.
use vstd::prelude::*;

use crate::firstdiff::{count_where, max_len_upto, MatchCandidate};
use crate::model::{ring_dist, Token};
use crate::ring::{dist_back, lemma_mask, ring_at};
use crate::model::{lemma_mod_add, lemma_mod_by};

verus! {

/// One tied candidate.
#[derive(Clone, Copy, Debug, PartialEq, Eq, Structural)]
pub struct TieRow {
    pub pos: u16,
    pub len: u8,
    /// Distance back from the head, modulo 4096.
    pub dist: u16,
    /// The stream's match is this candidate.
    pub is_leaf: bool,
}

/// What a token contributes to the dataset.
#[derive(Debug, PartialEq, Eq)]
pub enum TieSelection {
    /// A literal, or fewer than two longest candidates, or none of 3 bytes.
    NotTied,
    /// More longest candidates than the cap: the token is skipped.
    TooMany,
    /// The rows of the longest candidates, in candidate order.
    Tied(Vec<TieRow>),
}

/// The row of candidate `c` for head `r` and the stream's match
/// (`lp`, `ll`).
pub open spec fn row_of(c: MatchCandidate, r: int, lp: u16, ll: u8) -> TieRow {
    TieRow { pos: c.pos, len: c.len, dist: ring_dist(r, c.pos as int) as u16, is_leaf: c.pos == lp && c.len == ll }
}

/// The rows of the first `n` candidates that have length `l`.
pub open spec fn rows_of_len(cands: Seq<MatchCandidate>, r: int, lp: u16, ll: u8, l: u8, n: int) -> Seq<TieRow>
    decreases n,
{
    if n <= 0 {
        Seq::empty()
    } else if cands[n - 1].len == l {
        rows_of_len(cands, r, lp, ll, l, n - 1).push(row_of(cands[n - 1], r, lp, ll))
    } else {
        rows_of_len(cands, r, lp, ll, l, n - 1)
    }
}

/// The selection for a token given the candidates at its position.
pub open spec fn selection_spec(cands: Seq<MatchCandidate>, r: int, leaf: Token, cap: int) -> Option<
    Option<Seq<TieRow>>,
> {
    let n = cands.len() as int;
    let m = max_len_upto(cands, n);
    let nmax = count_where(cands, |c: MatchCandidate| c.len == m, n);
    match leaf {
        Token::Match { pos, len } => if nmax >= 2 && m >= 3 {
            if nmax > cap {
                Some(None)
            } else {
                Some(Some(rows_of_len(cands, r, pos, len, m, n)))
            }
        } else {
            None
        },
        Token::Literal(_) => None,
    }
}

/// Selects the rows of a token: `None` in the spec stands for `NotTied`,
/// `Some(None)` for `TooMany`.
pub fn tie_rows(cands: &[MatchCandidate], r: usize, leaf: Token, cap: usize) -> (sel: TieSelection)
    requires
        r < 4096,
        forall|i: int| 0 <= i < cands@.len() ==> #[trigger] cands@[i].pos <= r + 0x1000,
    ensures
        match selection_spec(cands@, r as int, leaf, cap as int) {
            None => sel == TieSelection::NotTied,
            Some(None) => sel == TieSelection::TooMany,
            Some(Some(rows)) => sel matches TieSelection::Tied(v) && v@ == rows,
        },
{
    let (lp, ll, is_match) = match leaf {
        Token::Match { pos, len } => (pos, len, true),
        Token::Literal(_) => (0u16, 0u8, false),
    };
    let n = cands.len();
    let mut m: u8 = 0;
    let mut i: usize = 0;
    while i < n
        invariant
            n == cands@.len(),
            i <= n,
            m == max_len_upto(cands@, i as int),
        decreases n - i,
    {
        if cands[i].len > m {
            m = cands[i].len;
        }
        i += 1;
    }
    let ghost f = |c: MatchCandidate| c.len == m;
    let mut nmax: usize = 0;
    let mut j: usize = 0;
    while j < n
        invariant
            n == cands@.len(),
            j <= n,
            nmax == count_where(cands@, f, j as int),
            nmax <= j,
            f == (|c: MatchCandidate| c.len == m),
        decreases n - j,
    {
        if cands[j].len == m {
            nmax += 1;
        }
        j += 1;
    }
    if !(is_match && nmax >= 2 && m >= 3) {
        return TieSelection::NotTied;
    }
    if nmax > cap {
        return TieSelection::TooMany;
    }
    let mut rows: Vec<TieRow> = Vec::new();
    let mut k: usize = 0;
    while k < n
        invariant
            n == cands@.len(),
            k <= n,
            r < 4096,
            forall|q: int| 0 <= q < cands@.len() ==> #[trigger] cands@[q].pos <= r + 0x1000,
            rows@ == rows_of_len(cands@, r as int, lp, ll, m, k as int),
        decreases n - k,
    {
        let c = cands[k];
        if c.len == m {
            let d = dist_back(r, c.pos);
            rows.push(TieRow { pos: c.pos, len: c.len, dist: d, is_leaf: c.pos == lp && c.len == ll });
        }
        k += 1;
    }
    TieSelection::Tied(rows)
}

/// The kind of a token in the history before a tie: none yet, literal or
/// match.
#[derive(Clone, Copy, Debug, PartialEq, Eq, Structural)]
pub enum HistKind {
    Nothing,
    Literal,
    Match,
}

impl HistKind {
    /// The letter the dataset writes: `N`, `L` or `M`.
    pub fn letter(&self) -> (c: char)
        ensures
            c == (match *self {
                HistKind::Nothing => 'N',
                HistKind::Literal => 'L',
                HistKind::Match => 'M',
            }),
    {
        match self {
            HistKind::Nothing => 'N',
            HistKind::Literal => 'L',
            HistKind::Match => 'M',
        }
    }
}

/// The `j`-th token before token `k` (`j == 0`: the one just before), if
/// there is one.
pub open spec fn hist_token(ts: Seq<Token>, k: int, j: int) -> Option<Token> {
    if 0 <= k - 1 - j {
        Some(ts[k - 1 - j])
    } else {
        None
    }
}

/// The kind of `hist_token`.
pub open spec fn hist_kind(ts: Seq<Token>, k: int, j: int) -> HistKind {
    match hist_token(ts, k, j) {
        None => HistKind::Nothing,
        Some(Token::Literal(_)) => HistKind::Literal,
        Some(Token::Match { .. }) => HistKind::Match,
    }
}

/// The length of `hist_token`: 1 for a literal, 0 for none.
pub open spec fn hist_len(ts: Seq<Token>, k: int, j: int) -> u8 {
    match hist_token(ts, k, j) {
        None => 0,
        Some(Token::Literal(_)) => 1,
        Some(Token::Match { len, .. }) => len,
    }
}

/// The length of the last match before token `k`, 0 when there is none.
pub open spec fn last_match_len(ts: Seq<Token>, k: int) -> u8
    decreases k,
{
    if k <= 0 {
        0
    } else {
        match ts[k - 1] {
            Token::Match { len, .. } => len,
            Token::Literal(_) => last_match_len(ts, k - 1),
        }
    }
}

/// The byte of the last literal before token `k`, 0 when there is none.
pub open spec fn last_literal_byte(ts: Seq<Token>, k: int) -> u8
    decreases k,
{
    if k <= 0 {
        0
    } else {
        match ts[k - 1] {
            Token::Literal(b) => b,
            Token::Match { .. } => last_literal_byte(ts, k - 1),
        }
    }
}

/// How many of the first `n` history entries have kind `kind`.
pub open spec fn hist_count(ts: Seq<Token>, k: int, kind: HistKind, n: int) -> nat
    decreases n,
{
    if n <= 0 {
        0
    } else {
        hist_count(ts, k, kind, n - 1) + if hist_kind(ts, k, n - 1) == kind {
            1nat
        } else {
            0nat
        }
    }
}

/// The sum of the lengths of the first `n` history entries.
pub open spec fn hist_len_sum(ts: Seq<Token>, k: int, n: int) -> nat
    decreases n,
{
    if n <= 0 {
        0
    } else {
        hist_len_sum(ts, k, n - 1) + hist_len(ts, k, n - 1) as nat
    }
}

/// The longest of the first `n` history entries that exist, 0 for none.
pub open spec fn hist_max_len(ts: Seq<Token>, k: int, n: int) -> u8
    decreases n,
{
    if n <= 0 {
        0
    } else {
        let m = hist_max_len(ts, k, n - 1);
        if hist_token(ts, k, n - 1) is Some && hist_len(ts, k, n - 1) > m {
            hist_len(ts, k, n - 1)
        } else {
            m
        }
    }
}

/// The shortest of the first `n` history entries that exist, 255 for none.
pub open spec fn hist_min_len(ts: Seq<Token>, k: int, n: int) -> u8
    decreases n,
{
    if n <= 0 {
        255
    } else {
        let m = hist_min_len(ts, k, n - 1);
        if hist_token(ts, k, n - 1) is Some && hist_len(ts, k, n - 1) < m {
            hist_len(ts, k, n - 1)
        } else {
            m
        }
    }
}

/// The history of the ten tokens before a tie and the stream-wide measures
/// at it.
pub struct TokenHistory {
    /// Kinds of the ten tokens before, the nearest first.
    pub kinds: Vec<HistKind>,
    /// Their lengths (1 for a literal, 0 for none).
    pub lens: Vec<u8>,
    pub last_match_len: u8,
    pub last_literal_byte: u8,
    /// Matches and literals among the ten.
    pub recent_m_count: u8,
    pub recent_l_count: u8,
    /// Ten times the mean length of the ten, rounded down (0 for none).
    pub recent_avg_len_x10: u32,
    /// Longest and shortest of the five nearest (0 for none; a shortest of
    /// 255 reads as 0 too).
    pub last5_max_len: u8,
    pub last5_min_len: u8,
}

/// The length of the last match before token `k` (`want_match`), or the
/// byte of the last literal before it; 0 when there is none.
fn last_of_kind(ts: &[Token], k: usize, want_match: bool) -> (v: u8)
    requires
        k <= ts@.len(),
    ensures
        v == (if want_match {
            last_match_len(ts@, k as int)
        } else {
            last_literal_byte(ts@, k as int)
        }),
{
    let mut i: usize = k;
    while i > 0
        invariant
            i <= k <= ts@.len(),
            (if want_match {
                last_match_len(ts@, k as int) == last_match_len(ts@, i as int)
            } else {
                last_literal_byte(ts@, k as int) == last_literal_byte(ts@, i as int)
            }),
        decreases i,
    {
        match ts[i - 1] {
            Token::Match { len, .. } => {
                if want_match {
                    return len;
                }
            },
            Token::Literal(b) => {
                if !want_match {
                    return b;
                }
            },
        }
        i -= 1;
    }
    0
}

/// The history features of token `k` of `ts`.
pub fn token_history(ts: &[Token], k: usize) -> (h: TokenHistory)
    requires
        k <= ts@.len(),
    ensures
        h.kinds@.len() == 10,
        h.lens@.len() == 10,
        forall|j: int| 0 <= j < 10 ==> #[trigger] h.kinds@[j] == hist_kind(ts@, k as int, j),
        forall|j: int| 0 <= j < 10 ==> #[trigger] h.lens@[j] == hist_len(ts@, k as int, j),
        h.last_match_len == last_match_len(ts@, k as int),
        h.last_literal_byte == last_literal_byte(ts@, k as int),
        h.recent_m_count == hist_count(ts@, k as int, HistKind::Match, 10),
        h.recent_l_count == hist_count(ts@, k as int, HistKind::Literal, 10),
        h.recent_avg_len_x10 as int == (if k == 0 {
            0
        } else {
            (hist_len_sum(ts@, k as int, 10) * 10) as int / (if k < 10 {
                k as int
            } else {
                10
            })
        }),
        h.last5_max_len == hist_max_len(ts@, k as int, 5),
        h.last5_min_len == (if hist_min_len(ts@, k as int, 5) == 255 {
            0
        } else {
            hist_min_len(ts@, k as int, 5)
        }),
{
    let mut kinds: Vec<HistKind> = Vec::new();
    let mut lens: Vec<u8> = Vec::new();
    let mut m_count: u8 = 0;
    let mut l_count: u8 = 0;
    let mut len_sum: u32 = 0;
    let mut len_n: u32 = 0;
    let mut max5: u8 = 0;
    let mut min5: u8 = 255;
    let mut j: usize = 0;
    while j < 10
        invariant
            k <= ts@.len(),
            j <= 10,
            kinds@.len() == j,
            lens@.len() == j,
            forall|i: int| 0 <= i < j ==> #[trigger] kinds@[i] == hist_kind(ts@, k as int, i),
            forall|i: int| 0 <= i < j ==> #[trigger] lens@[i] == hist_len(ts@, k as int, i),
            m_count == hist_count(ts@, k as int, HistKind::Match, j as int),
            l_count == hist_count(ts@, k as int, HistKind::Literal, j as int),
            m_count + l_count <= j,
            len_sum == hist_len_sum(ts@, k as int, j as int),
            len_sum <= 255 * j,
            len_n as int == (if k < j {
                k as int
            } else {
                j as int
            }),
            max5 == hist_max_len(ts@, k as int, if j < 5 {
                j as int
            } else {
                5
            }),
            min5 == hist_min_len(ts@, k as int, if j < 5 {
                j as int
            } else {
                5
            }),
        decreases 10 - j,
    {
        let (kind, len) = if j < k {
            match ts[k - 1 - j] {
                Token::Literal(_) => (HistKind::Literal, 1u8),
                Token::Match { len, .. } => (HistKind::Match, len),
            }
        } else {
            (HistKind::Nothing, 0u8)
        };
        assert(kind == hist_kind(ts@, k as int, j as int));
        assert(len == hist_len(ts@, k as int, j as int));
        if kind == HistKind::Match {
            m_count += 1;
        }
        if kind == HistKind::Literal {
            l_count += 1;
        }
        if j < k {
            len_sum += len as u32;
            len_n += 1;
            if j < 5 {
                if len > max5 {
                    max5 = len;
                }
                if len < min5 {
                    min5 = len;
                }
            }
        }
        kinds.push(kind);
        lens.push(len);
        j += 1;
    }
    let avg = if len_n > 0 {
        (len_sum * 10) / len_n
    } else {
        0
    };
    if min5 == 255 {
        min5 = 0;
    }
    TokenHistory {
        kinds,
        lens,
        last_match_len: last_of_kind(ts, k, true),
        last_literal_byte: last_of_kind(ts, k, false),
        recent_m_count: m_count,
        recent_l_count: l_count,
        recent_avg_len_x10: avg,
        last5_max_len: max5,
        last5_min_len: min5,
    }
}

/// `a * b`, or `u32::MAX` when that does not fit.
pub open spec fn sat_mul(a: u32, b: u32) -> u32 {
    if a * b <= u32::MAX {
        (a * b) as u32
    } else {
        u32::MAX
    }
}

fn saturating_mul_u32(a: u32, b: u32) -> (c: u32)
    ensures
        c == sat_mul(a, b),
{
    match a.checked_mul(b) {
        Some(v) => v,
        None => u32::MAX,
    }
}

/// The input byte at `i`, 0 past the end.
pub open spec fn byte_or_zero(input: Seq<u8>, i: int) -> u8 {
    if 0 <= i < input.len() {
        input[i]
    } else {
        0
    }
}

fn get_or_zero(input: &[u8], i: usize) -> (b: u8)
    ensures
        b == byte_or_zero(input@, i as int),
{
    if i < input.len() {
        input[i]
    } else {
        0
    }
}

/// The measures of a tie that do not depend on the candidate.
#[derive(Clone, Debug, PartialEq, Eq)]
pub struct TieContext {
    /// Input bytes at the tie and the eight after it (0 past the end).
    pub in_bytes: Vec<u8>,
    /// The input byte just past the longest match.
    pub in_after_match: u8,
    /// Column and row of the tie in an image `width` wide (0 for width 0).
    pub col: u32,
    pub row: u32,
    /// How many times the ring has been filled before the tie.
    pub wrap_count: u32,
    pub total_pixels: u32,
    /// The palette size as one of six classes (2, 48, 96, 124, 220, other).
    pub colors_bucket: u8,
}

/// The class of a palette size.
pub open spec fn colors_class(colors: u8) -> u8 {
    if colors == 2 {
        0
    } else if colors == 48 {
        1
    } else if colors == 96 {
        2
    } else if colors == 124 {
        3
    } else if colors == 220 {
        4
    } else {
        5
    }
}

/// Each of the five palette sizes seen in the corpus (2, 48, 96, 124, 220)
/// has a class of its own, 0 to 4 in that order, and every other size falls
/// in class 5: two sizes share a class exactly when both are equal or both
/// are outside the five.
pub proof fn lemma_colors_classes(c: u8, d: u8)
    ensures
        colors_class(c) <= 5,
        (colors_class(c) == 0) == (c == 2),
        (colors_class(c) == 1) == (c == 48),
        (colors_class(c) == 2) == (c == 96),
        (colors_class(c) == 3) == (c == 124),
        (colors_class(c) == 4) == (c == 220),
        (colors_class(c) == 5) == (c != 2 && c != 48 && c != 96 && c != 124 && c != 220),
        (colors_class(c) == colors_class(d)) == (c == d || (colors_class(c) == 5 && colors_class(d) == 5)),
{
}

/// The candidate-independent measures of a tie at input position `pos`
/// whose longest match is `max_len` long.
pub fn tie_context(input: &[u8], pos: usize, max_len: u8, width: u16, height: u16, colors: u8) -> (t: TieContext)
    requires
        pos <= u32::MAX,
        pos + 8 <= usize::MAX,
        pos + max_len <= usize::MAX,
    ensures
        t.in_bytes@.len() == 9,
        forall|k: int| 0 <= k < 9 ==> #[trigger] t.in_bytes@[k] == byte_or_zero(input@, pos + k),
        t.in_after_match == byte_or_zero(input@, pos + max_len),
        t.col == (if width > 0 {
            pos as int % width as int
        } else {
            0
        }),
        t.row == (if width > 0 {
            pos as int / width as int
        } else {
            0
        }),
        t.wrap_count == pos as int / 4096,
        t.total_pixels == width as int * height as int,
        t.colors_bucket == colors_class(colors),
        (t.colors_bucket == 0) == (colors == 2),
        (t.colors_bucket == 1) == (colors == 48),
        (t.colors_bucket == 2) == (colors == 96),
        (t.colors_bucket == 3) == (colors == 124),
        (t.colors_bucket == 4) == (colors == 220),
        (t.colors_bucket == 5) == (colors != 2 && colors != 48 && colors != 96 && colors != 124 && colors
            != 220),
{
    let mut in_bytes: Vec<u8> = Vec::new();
    let mut k: usize = 0;
    while k < 9
        invariant
            k <= 9,
            pos + 8 <= usize::MAX,
            in_bytes@.len() == k,
            forall|j: int| 0 <= j < k ==> #[trigger] in_bytes@[j] == byte_or_zero(input@, pos + j),
        decreases 9 - k,
    {
        in_bytes.push(get_or_zero(input, pos + k));
        k += 1;
    }
    let w = width as usize;
    let (col, row) = if w > 0 {
        ((pos % w) as u32, (pos / w) as u32)
    } else {
        (0, 0)
    };
    assert((width as int) * (height as int) <= 0xffff * 0xffff) by (nonlinear_arith)
        requires
            width <= 0xffff,
            height <= 0xffff,
    ;
    let colors_bucket: u8 = match colors {
        2 => 0,
        48 => 1,
        96 => 2,
        124 => 3,
        220 => 4,
        _ => 5,
    };
    TieContext {
        in_bytes,
        in_after_match: get_or_zero(input, pos + max_len as usize),
        col,
        row,
        wrap_count: (pos / 4096) as u32,
        total_pixels: (width as u32) * (height as u32),
        colors_bucket,
    }
}

/// The measures of one tied candidate.
#[derive(Clone, Debug, PartialEq, Eq)]
pub struct CandidateFeatures {
    /// Distance back from the head, modulo 4096.
    pub dist: u16,
    pub is_leaf: bool,
    /// The ring bytes one to eight slots before the candidate.
    pub ring_before: Vec<u8>,
    /// The ring bytes from just past the longest match on.
    pub ring_after: Vec<u8>,
    /// Input bytes since the first and last slots of the match were
    /// written (`u32::MAX` for a slot never written).
    pub age_start: u32,
    pub age_end: u32,
    /// How often those slots have been written.
    pub writes_start: u32,
    pub writes_end: u32,
    /// The distance modulo and divided by the width (0 for width 0).
    pub dist_mod_w: u32,
    pub dist_div_w: u32,
    /// `wrap_count` times the distance and times `dist_mod_w`, saturating.
    pub wrap_x_dist: u32,
    pub wrap_x_mod_w: u32,
}

/// Input bytes since a slot with tick `tick` was written at input position
/// `pos`, or `u32::MAX` for a slot never written.
pub open spec fn age_of(tick: u32, pos: int) -> u32 {
    if tick == u32::MAX {
        u32::MAX
    } else if pos >= tick {
        (pos - tick) as u32
    } else {
        0
    }
}

/// The measures of candidate `c` of a tie at input position `pos`, whose
/// longest match is `max_len` long, on the ring `ring` with head `r`, write
/// ticks `ticks` and write counts `writes`; `leaf` is the stream's match.
pub fn candidate_features(
    ring: &[u8],
    ticks: &[u32],
    writes: &[u32],
    r: usize,
    pos: usize,
    c: MatchCandidate,
    max_len: u8,
    leaf_pos: u16,
    leaf_len: u8,
    width: u16,
) -> (f: CandidateFeatures)
    requires
        ring@.len() == 4096,
        ticks@.len() == 4096,
        writes@.len() == 4096,
        r < 4096,
        c.pos < 4096,
        max_len >= 1,
        pos <= u32::MAX,
    ensures
        f.dist as int == ring_dist(r as int, c.pos as int),
        f.is_leaf == (c.pos == leaf_pos && c.len == leaf_len),
        f.ring_before@.len() == 8,
        f.ring_after@.len() == 8,
        forall|k: int| 0 <= k < 8 ==> #[trigger] f.ring_before@[k] == ring@[(c.pos - k - 1) % 4096],
        forall|k: int| 0 <= k < 8 ==> #[trigger] f.ring_after@[k] == ring@[(c.pos + max_len + k) % 4096],
        f.age_start == age_of(ticks@[c.pos as int], pos as int),
        f.age_end == age_of(ticks@[(c.pos + max_len - 1) % 4096], pos as int),
        f.writes_start == writes@[c.pos as int],
        f.writes_end == writes@[(c.pos + max_len - 1) % 4096],
        f.dist_mod_w == (if width > 0 {
            f.dist as int % width as int
        } else {
            0
        }),
        f.dist_div_w == (if width > 0 {
            f.dist as int / width as int
        } else {
            0
        }),
        f.wrap_x_dist == sat_mul((pos as int / 4096) as u32, f.dist as u32),
        f.wrap_x_mod_w == sat_mul((pos as int / 4096) as u32, f.dist_mod_w),
{
    let cp = c.pos as usize;
    let dist = dist_back(r, c.pos);
    let mut ring_before: Vec<u8> = Vec::new();
    let mut ring_after: Vec<u8> = Vec::new();
    let mut k: usize = 0;
    while k < 8
        invariant
            k <= 8,
            ring@.len() == 4096,
            cp < 4096,
            cp == c.pos,
            ring_before@.len() == k,
            ring_after@.len() == k,
            forall|j: int| 0 <= j < k ==> #[trigger] ring_before@[j] == ring@[(c.pos - j - 1) % 4096],
            forall|j: int| 0 <= j < k ==> #[trigger] ring_after@[j] == ring@[(c.pos + max_len + j) % 4096],
        decreases 8 - k,
    {
        proof {
            lemma_mod_add(4096, cp - k - 1);
            lemma_mod_by(4096, 1, 0);
        }
        ring_before.push(ring_at(ring, cp + 4096 - k - 1));
        ring_after.push(ring_at(ring, cp + max_len as usize + k));
        k += 1;
    }
    let ps = cp;
    let pe = (cp + max_len as usize - 1) & 0x0fff;
    proof {
        lemma_mask((cp + max_len as usize - 1) as usize);
    }
    let p32 = pos as u32;
    let age = |t: u32| -> (a: u32)
        ensures
            a == age_of(t, pos as int),
        {
            if t == u32::MAX {
                u32::MAX
            } else {
                p32.saturating_sub(t)
            }
        };
    let age_start = age(ticks[ps]);
    let age_end = age(ticks[pe]);
    let w = width as u32;
    let d = dist as u32;
    let (dist_mod_w, dist_div_w) = if w > 0 {
        (d % w, d / w)
    } else {
        (0, 0)
    };
    let wrap = (pos / 4096) as u32;
    CandidateFeatures {
        dist,
        is_leaf: c.pos == leaf_pos && c.len == leaf_len,
        ring_before,
        ring_after,
        age_start,
        age_end,
        writes_start: writes[ps],
        writes_end: writes[pe],
        dist_mod_w,
        dist_div_w,
        wrap_x_dist: saturating_mul_u32(wrap, d),
        wrap_x_mod_w: saturating_mul_u32(wrap, dist_mod_w),
    }
}

} // verus!
