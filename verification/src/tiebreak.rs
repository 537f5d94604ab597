//! Measures used when studying how an encoder breaks ties between equally
//! long matches: ring distances, ranks, hash chains, exact occurrences and
//! the first differing byte of two windows.
use vstd::prelude::*;

use crate::ring::lemma_mask;

verus! {

/// Whether a predicted position is the one the stream used.
pub fn hit(pred: Option<u16>, leaf: u16) -> (b: bool)
    ensures
        b == (pred == Some(leaf)),
{
    match pred {
        Some(p) => p == leaf,
        None => false,
    }
}

/// Distance from head `r` back to `pos`, taken modulo 4096 into `0..4096`.
pub fn dist_to_r(r: i32, pos: u16) -> (d: i32)
    requires
        r - pos >= i32::MIN,
    ensures
        d as int == (r - pos) % 4096,
{
    let x = r - pos as i32;
    match x.checked_rem_euclid(4096) {
        Some(v) => v,
        None => 0,
    }
}

/// Distance from head `r` back to slot `pos` (taken modulo 4096): 0 for the
/// slot written last.
pub fn ring_dist(r: usize, pos: usize) -> (d: usize)
    requires
        r + 4096 <= usize::MAX,
    ensures
        d as int == (r - pos) % 4096,
{
    proof {
        lemma_mask(pos);
    }
    let x = r + 4096 - (pos & 0x0fff);
    proof {
        lemma_mask(x);
        vstd::arithmetic::div_mod::lemma_fundamental_div_mod(pos as int, 4096);
        vstd::arithmetic::div_mod::lemma_mod_multiples_vanish(
            1 + pos as int / 4096,
            r - pos as int,
            4096,
        );
    }
    x & 0x0fff
}

/// How many candidates lie strictly closer than `d`.
pub open spec fn count_closer(cands: Seq<(u16, usize)>, d: usize, n: int) -> nat
    decreases n,
{
    if n <= 0 {
        0
    } else {
        count_closer(cands, d, n - 1) + if cands[n - 1].1 < d {
            1nat
        } else {
            0nat
        }
    }
}

/// The distance of the candidate at `target_pos` (the first one listed) and
/// its rank by increasing distance, equal distances sharing a rank; `None`
/// when no candidate is at `target_pos`.
pub fn rank_by_dist(candidates: &[(u16, usize)], target_pos: u16) -> (res: Option<(usize, usize)>)
    ensures
        match res {
            None => forall|i: int| 0 <= i < candidates@.len() ==> candidates@[i].0 != target_pos,
            Some((d, rank)) => exists|i: int|
                0 <= i < candidates@.len() && #[trigger] candidates@[i].0 == target_pos && (forall|j: int|
                    0 <= j < i ==> candidates@[j].0 != target_pos) && d == candidates@[i].1 && rank == 1
                    + count_closer(candidates@, d, candidates@.len() as int),
        },
{
    let n = candidates.len();
    let mut k: usize = 0;
    while k < n && candidates[k].0 != target_pos
        invariant
            n == candidates@.len(),
            k <= n,
            forall|j: int| 0 <= j < k ==> candidates@[j].0 != target_pos,
        decreases n - k,
    {
        k += 1;
    }
    if k == n {
        return None;
    }
    let d = candidates[k].1;
    let mut closer: usize = 0;
    let mut i: usize = 0;
    while i < n
        invariant
            n == candidates@.len(),
            i <= n,
            closer == count_closer(candidates@, d, i as int),
            k < n,
            d == candidates@[k as int].1,
            closer + (if k < i {
                1int
            } else {
                0int
            }) <= i,
        decreases n - i,
    {
        if candidates[i].1 < d {
            closer += 1;
        }
        i += 1;
    }
    assert(candidates@[k as int].0 == target_pos);
    Some((d, 1 + closer))
}

/// The first offset in `1..18` where the two windows differ, with both bytes
/// there; `(18, None, None)` when offsets 1 to 17 all agree (offset 0 is not
/// compared).
pub fn compare_windows(key: &[u8], node: &[u8]) -> (res: (u8, Option<u8>, Option<u8>))
    requires
        key@.len() >= 18,
        node@.len() >= 18,
    ensures
        res.0 == 18 ==> res.1 is None && res.2 is None && forall|j: int| 1 <= j < 18 ==> key@[j] == node@[j],
        res.0 < 18 ==> {
            &&& 1 <= res.0
            &&& key@[res.0 as int] != node@[res.0 as int]
            &&& res.1 == Some(key@[res.0 as int])
            &&& res.2 == Some(node@[res.0 as int])
            &&& forall|j: int| 1 <= j < res.0 ==> key@[j] == node@[j]
        },
        res.0 <= 18,
{
    let mut j: usize = 1;
    while j < 18
        invariant
            1 <= j <= 18,
            key@.len() >= 18,
            node@.len() >= 18,
            forall|i: int| 1 <= i < j ==> key@[i] == node@[i],
        decreases 18 - j,
    {
        let a = key[j];
        let b = node[j];
        if a != b {
            return (j as u8, Some(a), Some(b));
        }
        j += 1;
    }
    (18, None, None)
}

/// One row of the deep-scan table: an event, the position the stream used,
/// and six predicted positions.
#[derive(Debug)]
pub struct DeepscanRow {
    pub file: String,
    pub input_pos: usize,
    pub len: u8,
    pub leaf_pos: u16,
    pub pf: Option<u16>,
    pub pl: Option<u16>,
    pub sf: Option<u16>,
    pub sl: Option<u16>,
    pub rot_a: Option<u16>,
    pub rot_b: Option<u16>,
}

/// No prediction of the row hit the position the stream used.
pub fn is_none_of_6(r: &DeepscanRow) -> (b: bool)
    ensures
        b == !(r.pf == Some(r.leaf_pos) || r.pl == Some(r.leaf_pos) || r.sf == Some(r.leaf_pos)
            || r.sl == Some(r.leaf_pos) || r.rot_a == Some(r.leaf_pos) || r.rot_b == Some(
            r.leaf_pos,
        )),
{
    !hit(r.pf, r.leaf_pos) && !hit(r.pl, r.leaf_pos) && !hit(r.sf, r.leaf_pos) && !hit(
        r.sl,
        r.leaf_pos,
    ) && !hit(r.rot_a, r.leaf_pos) && !hit(r.rot_b, r.leaf_pos)
}

/// The first prediction of the row hit.
pub fn is_pf_hit(r: &DeepscanRow) -> (b: bool)
    ensures
        b == (r.pf == Some(r.leaf_pos)),
{
    hit(r.pf, r.leaf_pos)
}

/// Where a used position stands relative to the search path of the tree.
#[derive(Clone, Copy, Debug, PartialEq, Eq, Structural)]
pub enum OffCode {
    OnPath,
    NotInTree,
    RootByteMismatch,
    /// The search went left, the position is in the right subtree.
    BranchLeftVsRight,
    /// The search went right, the position is in the left subtree.
    BranchRightVsLeft,
}

impl OffCode {
    /// The code of a table column: 0 to 4 in declaration order.
    pub fn from_code(c: u8) -> (o: OffCode)
        requires
            c <= 4,
        ensures
            o == (if c == 0 {
                OffCode::OnPath
            } else if c == 1 {
                OffCode::NotInTree
            } else if c == 2 {
                OffCode::RootByteMismatch
            } else if c == 3 {
                OffCode::BranchLeftVsRight
            } else {
                OffCode::BranchRightVsLeft
            }),
    {
        match c {
            0 => OffCode::OnPath,
            1 => OffCode::NotInTree,
            2 => OffCode::RootByteMismatch,
            3 => OffCode::BranchLeftVsRight,
            _ => OffCode::BranchRightVsLeft,
        }
    }

    /// The label the report prints.
    pub fn label(&self) -> (s: &'static str)
        ensures
            s@ == (match *self {
                OffCode::OnPath => "on_path"@,
                OffCode::NotInTree => "not_in_tree"@,
                OffCode::RootByteMismatch => "root_byte_mismatch"@,
                OffCode::BranchLeftVsRight => "branch_search_left_pos_right"@,
                OffCode::BranchRightVsLeft => "branch_search_right_pos_left"@,
            }),
    {
        match self {
            OffCode::OnPath => "on_path",
            OffCode::NotInTree => "not_in_tree",
            OffCode::RootByteMismatch => "root_byte_mismatch",
            OffCode::BranchLeftVsRight => "branch_search_left_pos_right",
            OffCode::BranchRightVsLeft => "branch_search_right_pos_left",
        }
    }
}

} // verus!
