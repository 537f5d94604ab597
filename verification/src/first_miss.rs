//! The first token at which a stream leaves the greedy encoder, with what
//! the encoder saw there: the longest match, how many positions reach it,
//! the longest match one byte later (for a refused literal) and the last
//! three tokens before it.
use vstd::prelude::*;
use vstd::string::*;

use crate::model::{head_of, lemma_mod_add, Token};
use crate::scan::{
    lemma_scan_prefix_len, lemma_scan_stays_stopped, scan_prefix, scan_step, scan_tokens, stop_at,
    FailReason, ScanRules, ScanStop,
};
use crate::text::{dec, push_dec};
use crate::token::{lemma_total_size_prefix, total_size};
use crate::greedy::token_size_exec;

verus! {

/// A token before the first miss: a literal, or a match with its length and
/// its distance back from the head after it.
#[derive(Clone, Copy, Debug, PartialEq, Eq, Structural)]
pub enum PrevTok {
    Literal,
    Match { len: usize, dist: usize },
}

/// What kind of token the first miss is.
#[derive(Clone, Copy, Debug, PartialEq, Eq, Structural)]
pub enum MissKind {
    /// A token after the whole input had been produced.
    InputExhausted,
    /// A literal where a longer match was available.
    Literal,
    /// A match that is not a longest one, or not from a longest position.
    Match,
}

/// The first miss of a file.
#[derive(Debug)]
pub struct MissRecord {
    pub fail_idx: usize,
    pub fail_kind: MissKind,
    pub fail_max_len: usize,
    pub fail_max_positions: usize,
    /// The match length of the missing token, 0 for a literal.
    pub leaf_match_len: usize,
    /// For a literal: the longest match once the literal is written.
    pub next_max_len: usize,
    /// The last three tokens before the miss, as `fmt_prev` renders them.
    pub prev_kinds: String,
    pub input_pos: usize,
}

/// The rules of the first-miss replay: no literal byte or match source check.
pub open spec fn miss_rules(threshold: usize, init_match: bool) -> ScanRules {
    ScanRules {
        threshold,
        init_match,
        lazy: false,
        literal_must_match: false,
        content_must_match: false,
    }
}

/// Token `j` as the window lists it; the head after it follows from the
/// sizes of the tokens up to it.
pub open spec fn prev_tok(leaf: Seq<Token>, j: int) -> PrevTok {
    match leaf[j] {
        Token::Literal(_) => PrevTok::Literal,
        Token::Match { pos: p, len: l } => {
            let r2 = head_of(total_size(leaf.take(j + 1)) as int);
            PrevTok::Match {
                len: l as usize,
                dist: (if p < r2 {
                    r2 - p
                } else {
                    r2 + 4096 - p
                }) as usize,
            }
        },
    }
}

/// First index of the window of (at most three) tokens before `idx`.
pub open spec fn window_start(idx: int) -> int {
    if idx >= 3 {
        idx - 3
    } else {
        0
    }
}

/// The tokens `window_start(idx)..idx`.
pub open spec fn prev_window(leaf: Seq<Token>, idx: int) -> Seq<PrevTok> {
    Seq::new((idx - window_start(idx)) as nat, |i: int| prev_tok(leaf, window_start(idx) + i))
}

/// The text of one window entry: `L`, or `M(l=<len>,d=<dist>)`.
pub open spec fn prev_tok_text(t: PrevTok) -> Seq<char> {
    match t {
        PrevTok::Literal => "L"@,
        PrevTok::Match { len, dist } => "M(l="@ + dec(len as nat) + ",d="@ + dec(dist as nat) + ")"@,
    }
}

/// The entries' texts joined by commas.
pub open spec fn prev_text(prev: Seq<PrevTok>) -> Seq<char>
    decreases prev.len(),
{
    if prev.len() == 0 {
        Seq::empty()
    } else if prev.len() == 1 {
        prev_tok_text(prev[0])
    } else {
        prev_text(prev.drop_last()) + ","@ + prev_tok_text(prev.last())
    }
}

/// Renders a window of tokens.
pub fn fmt_prev(prev: &[PrevTok]) -> (s: String)
    ensures
        s@ == prev_text(prev@),
{
    let mut s = String::new();
    let mut i: usize = 0;
    while i < prev.len()
        invariant
            i <= prev@.len(),
            s@ == prev_text(prev@.take(i as int)),
        decreases prev@.len() - i,
    {
        let ghost s0 = s@;
        if i > 0 {
            s.append(",");
        }
        match prev[i] {
            PrevTok::Literal => {
                s.append("L");
            },
            PrevTok::Match { len, dist } => {
                s.append("M(l=");
                push_dec(&mut s, len as u64);
                s.append(",d=");
                push_dec(&mut s, dist as u64);
                s.append(")");
            },
        }
        proof {
            let t = prev@.take(i + 1);
            assert(t.drop_last() =~= prev@.take(i as int));
            assert(t.last() == prev@[i as int]);
            if i == 0 {
                assert(s@ =~= prev_tok_text(prev@[0]));
            } else {
                assert(s@ =~= s0 + ","@ + prev_tok_text(prev@[i as int]));
            }
        }
        i += 1;
    }
    assert(prev@.take(prev@.len() as int) =~= prev@);
    s
}

/// The window of tokens before `idx`, given that the first `idx` tokens were
/// accepted.
fn prev_tokens(leaf: &[Token], idx: usize, Ghost(input): Ghost<Seq<u8>>, Ghost(rules): Ghost<ScanRules>) -> (prev: Vec<PrevTok>)
    requires
        idx <= leaf@.len(),
        scan_prefix(input, leaf@, rules, idx as int) is Some,
        total_size(leaf@.take(idx as int)) <= usize::MAX,
    ensures
        prev@ == prev_window(leaf@, idx as int),
{
    proof {
        lemma_scan_prefix_len(input, leaf@, rules, idx as int);
    }
    let start = if idx >= 3 {
        idx - 3
    } else {
        0
    };
    let mut prev: Vec<PrevTok> = Vec::new();
    let mut acc: usize = 0;
    let mut j: usize = 0;
    while j < idx
        invariant
            j <= idx <= leaf@.len(),
            start as int == window_start(idx as int),
            total_size(leaf@.take(idx as int)) <= usize::MAX,
            acc == total_size(leaf@.take(j as int)),
            forall|k: int|
                #![trigger leaf@[k]]
                0 <= k < idx ==> (leaf@[k] matches Token::Match { pos: p, .. } ==> p < 4096),
            prev@ == Seq::new(
                (if j > start {
                    j - start
                } else {
                    0
                }) as nat,
                |i: int| prev_tok(leaf@, start + i),
            ),
        decreases idx - j,
    {
        let t = leaf[j];
        proof {
            assert(leaf@.take(j + 1).drop_last() =~= leaf@.take(j as int));
            assert(leaf@.take(j + 1).last() == t);
            lemma_total_size_prefix(leaf@.take(idx as int), j + 1);
            assert(leaf@.take(idx as int).take(j + 1) =~= leaf@.take(j + 1));
        }
        acc = acc + token_size_exec(&t);
        if j >= start {
            let pt = match t {
                Token::Literal(_) => PrevTok::Literal,
                Token::Match { pos: p, len: l } => {
                    let r2 = (acc % 4096 + 0x0fee) % 4096;
                    proof {
                        lemma_mod_add(acc as int, 0xfee);
                    }
                    let pu = p as usize;
                    let dist = if pu < r2 {
                        r2 - pu
                    } else {
                        r2 + 4096 - pu
                    };
                    PrevTok::Match { len: l as usize, dist }
                },
            };
            prev.push(pt);
        }
        j += 1;
        proof {
            assert(prev@ =~= Seq::new(
                (if j > start {
                    j - start
                } else {
                    0
                }) as nat,
                |i: int| prev_tok(leaf@, start + i),
            ));
        }
    }
    assert(prev@ =~= prev_window(leaf@, idx as int));
    prev
}

/// `rec` describes the first token the first-miss replay refuses.
pub open spec fn miss_describes(
    input: Seq<u8>,
    leaf: Seq<Token>,
    threshold: usize,
    init_match: bool,
    rec: MissRecord,
) -> bool {
    let rules = miss_rules(threshold, init_match);
    let w = scan_prefix(input, leaf, rules, rec.fail_idx as int)->0;
    let t = leaf[rec.fail_idx as int];
    let reason = scan_step(input, w, t, rules)->Err_0;
    &&& rec.fail_idx < leaf.len()
    &&& scan_prefix(input, leaf, rules, rec.fail_idx as int) is Some
    &&& stop_at(
        input,
        w,
        t,
        rules,
        ScanStop {
            index: rec.fail_idx,
            reason,
            best: rec.fail_max_len,
            n_positions: rec.fail_max_positions,
            next_best: rec.next_max_len,
            pos: rec.input_pos,
        },
    )
    &&& rec.fail_kind == (match reason {
        FailReason::InputExhausted => MissKind::InputExhausted,
        FailReason::LiteralWithLongerMatch => MissKind::Literal,
        _ => MissKind::Match,
    })
    &&& rec.leaf_match_len as int == (match t {
        Token::Match { len, .. } => if reason == FailReason::InputExhausted {
            0
        } else {
            len as int
        },
        Token::Literal(_) => 0,
    })
    &&& rec.prev_kinds@ == prev_text(prev_window(leaf, rec.fail_idx as int))
}

/// Replays `leaf` over `input` with the given threshold and start rule and
/// reports its first miss; `None` when every token passes.
pub fn check_file(input: &[u8], leaf: &[Token], threshold: usize, init_match: bool) -> (res: Option<
    MissRecord,
>)
    ensures
        res is None <==> scan_prefix(
            input@,
            leaf@,
            miss_rules(threshold, init_match),
            leaf@.len() as int,
        ) is Some,
        res matches Some(rec) ==> miss_describes(input@, leaf@, threshold, init_match, rec),
{
    let rules = ScanRules {
        threshold,
        init_match,
        lazy: false,
        literal_must_match: false,
        content_must_match: false,
    };
    let out = scan_tokens(input, leaf, rules);
    match out.stop {
        None => None,
        Some(st) => {
            proof {
                lemma_scan_stays_stopped(input@, leaf@, rules, st, leaf@.len() as int);
                lemma_scan_prefix_len(input@, leaf@, rules, st.index as int);
            }
            let prev = prev_tokens(leaf, st.index, Ghost(input@), Ghost(rules));
            let prev_kinds = fmt_prev(&prev);
            let kind = match st.reason {
                FailReason::InputExhausted => MissKind::InputExhausted,
                FailReason::LiteralWithLongerMatch => MissKind::Literal,
                _ => MissKind::Match,
            };
            let leaf_match_len = match leaf[st.index] {
                Token::Match { len, .. } => if kind == MissKind::InputExhausted {
                    0
                } else {
                    len as usize
                },
                Token::Literal(_) => 0,
            };
            Some(
                MissRecord {
                    fail_idx: st.index,
                    fail_kind: kind,
                    fail_max_len: st.best,
                    fail_max_positions: st.n_positions,
                    leaf_match_len,
                    next_max_len: st.next_best,
                    prev_kinds,
                    input_pos: st.pos,
                },
            )
        },
    }
}

} // verus!
