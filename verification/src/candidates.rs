//! Candidate positions of a tie and the rules that pick one of them by a
//! feature: the unique extreme value, or an extreme value broken by a second
//! feature.
use vstd::prelude::*;

verus! {

/// One candidate position of a tie with its features.
#[derive(Clone, Copy, Debug, PartialEq, Eq, Structural)]
pub struct Candidate {
    pub pos: i32,
    pub is_winner: bool,
    pub position: i64,
    /// `(r - pos)` modulo 4096.
    pub dist_to_r: i64,
    pub last_insert: i64,
    pub insert_count: i64,
    /// -1 when never promoted.
    pub last_promotion: i64,
    pub promotion_count: i64,
    /// -1 when never replaced.
    pub last_replace: i64,
    pub replace_count: i64,
    /// -1 when not in the tree.
    pub tree_depth: i64,
    /// -1 when not on the search trace.
    pub pf_rank: i64,
    pub written: i64,
    pub on_path: i64,
    pub in_tree: i64,
}

/// The features a rule may sort by.
#[derive(Clone, Copy, Debug, PartialEq, Eq, Structural)]
pub enum Feature {
    Position,
    DistToR,
    LastInsert,
    InsertCount,
    LastPromotion,
    PromotionCount,
    LastReplace,
    ReplaceCount,
    TreeDepth,
    PfRank,
    Written,
}

/// The value of feature `f` of candidate `c`.
pub open spec fn key_of(c: Candidate, f: Feature) -> i64 {
    match f {
        Feature::Position => c.position,
        Feature::DistToR => c.dist_to_r,
        Feature::LastInsert => c.last_insert,
        Feature::InsertCount => c.insert_count,
        Feature::LastPromotion => c.last_promotion,
        Feature::PromotionCount => c.promotion_count,
        Feature::LastReplace => c.last_replace,
        Feature::ReplaceCount => c.replace_count,
        Feature::TreeDepth => c.tree_depth,
        Feature::PfRank => c.pf_rank,
        Feature::Written => c.written,
    }
}

/// Each feature reads its own field of the candidate, and nothing else:
/// two candidates that agree on the field named by a feature have the same
/// key under it, whatever their other fields.
pub proof fn lemma_key_is_named_field(c: Candidate, d: Candidate)
    ensures
        key_of(c, Feature::Position) == c.position,
        key_of(c, Feature::DistToR) == c.dist_to_r,
        key_of(c, Feature::LastInsert) == c.last_insert,
        key_of(c, Feature::InsertCount) == c.insert_count,
        key_of(c, Feature::LastPromotion) == c.last_promotion,
        key_of(c, Feature::PromotionCount) == c.promotion_count,
        key_of(c, Feature::LastReplace) == c.last_replace,
        key_of(c, Feature::ReplaceCount) == c.replace_count,
        key_of(c, Feature::TreeDepth) == c.tree_depth,
        key_of(c, Feature::PfRank) == c.pf_rank,
        key_of(c, Feature::Written) == c.written,
        c.tree_depth == d.tree_depth ==> key_of(c, Feature::TreeDepth) == key_of(d, Feature::TreeDepth),
        c.position == d.position ==> key_of(c, Feature::Position) == key_of(d, Feature::Position),
        c.written == d.written ==> key_of(c, Feature::Written) == key_of(d, Feature::Written),
{
}

impl Feature {
    /// The value of this feature of `c`.
    pub fn value(&self, c: &Candidate) -> (v: i64)
        ensures
            v == key_of(*c, *self),
            *self == Feature::Position ==> v == c.position,
            *self == Feature::DistToR ==> v == c.dist_to_r,
            *self == Feature::LastInsert ==> v == c.last_insert,
            *self == Feature::InsertCount ==> v == c.insert_count,
            *self == Feature::LastPromotion ==> v == c.last_promotion,
            *self == Feature::PromotionCount ==> v == c.promotion_count,
            *self == Feature::LastReplace ==> v == c.last_replace,
            *self == Feature::ReplaceCount ==> v == c.replace_count,
            *self == Feature::TreeDepth ==> v == c.tree_depth,
            *self == Feature::PfRank ==> v == c.pf_rank,
            *self == Feature::Written ==> v == c.written,
    {
        match self {
            Feature::Position => c.position,
            Feature::DistToR => c.dist_to_r,
            Feature::LastInsert => c.last_insert,
            Feature::InsertCount => c.insert_count,
            Feature::LastPromotion => c.last_promotion,
            Feature::PromotionCount => c.promotion_count,
            Feature::LastReplace => c.last_replace,
            Feature::ReplaceCount => c.replace_count,
            Feature::TreeDepth => c.tree_depth,
            Feature::PfRank => c.pf_rank,
            Feature::Written => c.written,
        }
    }

    /// The column name the report prints.
    pub fn name(&self) -> (s: &'static str)
        ensures
            s@ == (match *self {
                Feature::Position => "position"@,
                Feature::DistToR => "dist_to_r"@,
                Feature::LastInsert => "last_insert"@,
                Feature::InsertCount => "insert_count"@,
                Feature::LastPromotion => "last_promotion"@,
                Feature::PromotionCount => "promotion_count"@,
                Feature::LastReplace => "last_replace"@,
                Feature::ReplaceCount => "replace_count"@,
                Feature::TreeDepth => "tree_depth"@,
                Feature::PfRank => "pf_rank"@,
                Feature::Written => "written"@,
            }),
    {
        match self {
            Feature::Position => "position",
            Feature::DistToR => "dist_to_r",
            Feature::LastInsert => "last_insert",
            Feature::InsertCount => "insert_count",
            Feature::LastPromotion => "last_promotion",
            Feature::PromotionCount => "promotion_count",
            Feature::LastReplace => "last_replace",
            Feature::ReplaceCount => "replace_count",
            Feature::TreeDepth => "tree_depth",
            Feature::PfRank => "pf_rank",
            Feature::Written => "written",
        }
    }
}

/// `a` wins over `b`: smaller when ascending, larger otherwise.
pub open spec fn beats(a: i64, b: i64, ascending: bool) -> bool {
    if ascending {
        a < b
    } else {
        a > b
    }
}

/// Among the candidates listed in `idxs`, `i` wins over every other one.
pub open spec fn unique_best_in(
    cands: Seq<Candidate>,
    idxs: Seq<usize>,
    f: Feature,
    ascending: bool,
    i: int,
) -> bool {
    &&& idxs.contains(i as usize)
    &&& 0 <= i < cands.len()
    &&& forall|j: int|
        0 <= j < idxs.len() && idxs[j] != i ==> beats(
            key_of(cands[i], f),
            key_of(cands[#[trigger] idxs[j] as int], f),
            ascending,
        )
}

/// No candidate wins over `i` by feature `f`.
pub open spec fn extreme_at(cands: Seq<Candidate>, f: Feature, ascending: bool, i: int) -> bool {
    &&& 0 <= i < cands.len()
    &&& forall|j: int|
        0 <= j < cands.len() ==> !beats(key_of(#[trigger] cands[j], f), key_of(cands[i], f), ascending)
}

/// `i` wins over every other candidate by feature `f`.
pub open spec fn strict_best(cands: Seq<Candidate>, f: Feature, ascending: bool, i: int) -> bool {
    &&& 0 <= i < cands.len()
    &&& forall|j: int|
        0 <= j < cands.len() && j != i ==> beats(
            key_of(cands[i], f),
            key_of(#[trigger] cands[j], f),
            ascending,
        )
}

/// `i` is extreme by the first feature and wins by the second over every
/// other candidate extreme by the first.
pub open spec fn lex_best(
    cands: Seq<Candidate>,
    f1: Feature,
    asc1: bool,
    f2: Feature,
    asc2: bool,
    i: int,
) -> bool {
    &&& extreme_at(cands, f1, asc1, i)
    &&& forall|j: int|
        0 <= j < cands.len() && j != i && #[trigger] extreme_at(cands, f1, asc1, j) ==> beats(
            key_of(cands[i], f2),
            key_of(cands[j], f2),
            asc2,
        )
}

/// The candidate among `idxs` that wins over all others by `f`, if one does.
fn unique_best(cands: &[Candidate], idxs: &Vec<usize>, f: Feature, ascending: bool) -> (res: Option<
    usize,
>)
    requires
        idxs@.len() > 0,
        forall|j: int| 0 <= j < idxs@.len() ==> #[trigger] idxs@[j] < cands@.len(),
        forall|a: int, b: int| 0 <= a < b < idxs@.len() ==> idxs@[a] != idxs@[b],
    ensures
        match res {
            Some(i) => unique_best_in(cands@, idxs@, f, ascending, i as int),
            None => forall|i: int| !#[trigger] unique_best_in(cands@, idxs@, f, ascending, i),
        },
{
    let n = idxs.len();
    let mut bq: usize = 0;
    let mut best_val = f.value(&cands[idxs[0]]);
    let mut tie = false;
    let mut q: usize = 1;
    while q < n
        invariant
            n == idxs@.len(),
            1 <= q <= n,
            bq < q,
            forall|j: int| 0 <= j < idxs@.len() ==> #[trigger] idxs@[j] < cands@.len(),
            best_val == key_of(cands@[idxs@[bq as int] as int], f),
            forall|j: int|
                0 <= j < q ==> !beats(
                    key_of(cands@[#[trigger] idxs@[j] as int], f),
                    best_val,
                    ascending,
                ),
            tie <==> exists|j: int|
                0 <= j < q && j != bq && key_of(cands@[#[trigger] idxs@[j] as int], f) == best_val,
        decreases n - q,
    {
        let v = f.value(&cands[idxs[q]]);
        let better = if ascending {
            v < best_val
        } else {
            v > best_val
        };
        if better {
            best_val = v;
            bq = q;
            tie = false;
        } else if v == best_val {
            tie = true;
        }
        q += 1;
    }
    if tie {
        proof {
            let j = choose|j: int|
                0 <= j < n && j != bq && key_of(cands@[#[trigger] idxs@[j] as int], f) == best_val;
            assert forall|i: int| !#[trigger] unique_best_in(cands@, idxs@, f, ascending, i) by {
                if unique_best_in(cands@, idxs@, f, ascending, i) {
                    if i == idxs@[bq as int] {
                        assert(idxs@[j] != i);
                    } else {
                        assert(idxs@[bq as int] != i);
                    }
                }
            }
        }
        None
    } else {
        assert(idxs@[bq as int] == idxs@[bq as int]);
        assert(idxs@.contains(idxs@[bq as int]));
        Some(idxs[bq])
    }
}

/// The candidate with the unique extreme value of `key` (smallest when
/// ascending, largest otherwise); `None` when two candidates share it.
pub fn pick_extremal(cands: &[Candidate], key: Feature, ascending: bool) -> (res: Option<usize>)
    requires
        cands@.len() > 0,
    ensures
        match res {
            Some(i) => strict_best(cands@, key, ascending, i as int),
            None => forall|i: int| !#[trigger] strict_best(cands@, key, ascending, i),
        },
{
    let n = cands.len();
    let mut idxs: Vec<usize> = Vec::new();
    let mut i: usize = 0;
    while i < n
        invariant
            n == cands@.len(),
            i <= n,
            idxs@.len() == i,
            forall|j: int| 0 <= j < i ==> #[trigger] idxs@[j] == j,
        decreases n - i,
    {
        idxs.push(i);
        i += 1;
    }
    let res = unique_best(cands, &idxs, key, ascending);
    proof {
        assert forall|i: int| #[trigger] strict_best(cands@, key, ascending, i) <==> unique_best_in(
            cands@,
            idxs@,
            key,
            ascending,
            i,
        ) by {
            if strict_best(cands@, key, ascending, i) {
                assert(idxs@[i] == i);
            }
            if unique_best_in(cands@, idxs@, key, ascending, i) {
                assert forall|j: int| 0 <= j < cands@.len() && j != i implies beats(
                    key_of(cands@[i], key),
                    key_of(#[trigger] cands@[j], key),
                    ascending,
                ) by {
                    assert(idxs@[j] == j);
                }
            }
        }
    }
    res
}

/// The candidate extreme by `primary`; among several, the one with the
/// unique extreme value of `secondary`; `None` when that is shared too.
pub fn pick_lexicographic(
    cands: &[Candidate],
    primary: Feature,
    primary_asc: bool,
    secondary: Feature,
    secondary_asc: bool,
) -> (res: Option<usize>)
    requires
        cands@.len() > 0,
    ensures
        match res {
            Some(i) => lex_best(cands@, primary, primary_asc, secondary, secondary_asc, i as int),
            None => forall|i: int|
                !#[trigger] lex_best(cands@, primary, primary_asc, secondary, secondary_asc, i),
        },
{
    let n = cands.len();
    let mut bi: usize = 0;
    let mut best_val = primary.value(&cands[0]);
    let mut i: usize = 1;
    while i < n
        invariant
            n == cands@.len(),
            1 <= i <= n,
            bi < i,
            best_val == key_of(cands@[bi as int], primary),
            forall|j: int|
                0 <= j < i ==> !beats(key_of(#[trigger] cands@[j], primary), best_val, primary_asc),
        decreases n - i,
    {
        let v = primary.value(&cands[i]);
        let better = if primary_asc {
            v < best_val
        } else {
            v > best_val
        };
        if better {
            best_val = v;
            bi = i;
        }
        i += 1;
    }
    assert(extreme_at(cands@, primary, primary_asc, bi as int));
    let mut tied: Vec<usize> = Vec::new();
    let mut k: usize = 0;
    while k < n
        invariant
            n == cands@.len(),
            k <= n,
            bi < n,
            best_val == key_of(cands@[bi as int], primary),
            extreme_at(cands@, primary, primary_asc, bi as int),
            forall|j: int| 0 <= j < tied@.len() ==> #[trigger] tied@[j] < k,
            forall|a: int, b: int| 0 <= a < b < tied@.len() ==> tied@[a] < tied@[b],
            forall|j: int|
                0 <= j < tied@.len() ==> key_of(cands@[#[trigger] tied@[j] as int], primary)
                    == best_val,
            forall|m: int|
                0 <= m < k && key_of(#[trigger] cands@[m], primary) == best_val ==> tied@.contains(
                    m as usize,
                ),
            bi < k ==> tied@.len() > 0,
        decreases n - k,
    {
        let ghost old_tied = tied@;
        let hit = primary.value(&cands[k]) == best_val;
        if hit {
            tied.push(k);
            assert(tied@[tied@.len() - 1] == k);
        }
        proof {
            assert forall|m: int|
                0 <= m < k + 1 && key_of(#[trigger] cands@[m], primary) == best_val implies tied@.contains(
                m as usize,
            ) by {
                if m < k {
                    let j = choose|j: int| 0 <= j < old_tied.len() && old_tied[j] == m as usize;
                    assert(tied@[j] == m as usize);
                } else {
                    assert(tied@[tied@.len() - 1] == k);
                }
            }
        }
        k += 1;
    }
    let res = unique_best(cands, &tied, secondary, secondary_asc);
    proof {
        // Extreme by the primary feature means having its extreme value.
        assert forall|m: int| 0 <= m < n implies (#[trigger] extreme_at(
            cands@,
            primary,
            primary_asc,
            m,
        ) <==> tied@.contains(m as usize)) by {
            if tied@.contains(m as usize) {
                let j = choose|j: int| 0 <= j < tied@.len() && tied@[j] == m as usize;
                assert(key_of(cands@[tied@[j] as int], primary) == best_val);
            }
            if extreme_at(cands@, primary, primary_asc, m) {
                assert(!beats(key_of(cands@[bi as int], primary), key_of(cands@[m], primary), primary_asc));
                assert(key_of(cands@[m], primary) == best_val);
            }
        }
        assert forall|i: int| #[trigger] lex_best(
            cands@,
            primary,
            primary_asc,
            secondary,
            secondary_asc,
            i,
        ) <==> unique_best_in(cands@, tied@, secondary, secondary_asc, i) by {
            if lex_best(cands@, primary, primary_asc, secondary, secondary_asc, i) {
                assert forall|j: int|
                    0 <= j < tied@.len() && tied@[j] != i implies beats(
                    key_of(cands@[i], secondary),
                    key_of(cands@[#[trigger] tied@[j] as int], secondary),
                    secondary_asc,
                ) by {
                    let m = tied@[j] as int;
                    assert(tied@.contains(m as usize));
                    assert(extreme_at(cands@, primary, primary_asc, m));
                }
            }
            if unique_best_in(cands@, tied@, secondary, secondary_asc, i) {
                assert forall|j: int|
                    0 <= j < cands@.len() && j != i && #[trigger] extreme_at(
                        cands@,
                        primary,
                        primary_asc,
                        j,
                    ) implies beats(
                    key_of(cands@[i], secondary),
                    key_of(cands@[j], secondary),
                    secondary_asc,
                ) by {
                    assert(tied@.contains(j as usize));
                    let q = choose|q: int| 0 <= q < tied@.len() && tied@[q] == j as usize;
                    assert(tied@[q] as int == j);
                }
            }
        }
    }
    res
}

} // verus!
