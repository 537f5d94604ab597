//! Whether a stream could come from a greedy encoder that may break ties
//! between equally long matches in any way: at every token, a literal must
//! stand where no match longer than 2 bytes is available and carry the input
//! byte, a match must have the longest length and start at a position that
//! reaches it, and the tokens must cover the whole input.
use vstd::prelude::*;

use crate::model::Token;
use crate::scan::{scan_prefix, scan_step, scan_tokens, FailReason, ScanRules};

verus! {

/// The rules of the greedy check: threshold 2, matches from any slot,
/// literal bytes checked.
pub open spec fn greedy_rules() -> ScanRules {
    ScanRules {
        threshold: 2,
        init_match: true,
        lazy: false,
        literal_must_match: true,
        content_must_match: false,
    }
}

/// The verdict on one file.
#[derive(Clone, Copy, Debug, PartialEq, Eq, Structural)]
pub struct FileResult {
    pub feasible: bool,
    /// The first token refused, if one was.
    pub fail_token_idx: Option<usize>,
    pub fail_reason: Option<FailReason>,
}

/// Checks `leaf` against the greedy encoder over `input`.
pub fn check_file(input: &[u8], leaf: &[Token]) -> (res: FileResult)
    ensures
        match res.fail_token_idx {
            Some(i) => {
                &&& i < leaf@.len()
                &&& scan_prefix(input@, leaf@, greedy_rules(), i as int) is Some
                &&& res.fail_reason is Some
                &&& scan_step(
                    input@,
                    scan_prefix(input@, leaf@, greedy_rules(), i as int)->0,
                    leaf@[i as int],
                    greedy_rules(),
                ) == Err::<Seq<u8>, FailReason>(res.fail_reason->0)
                &&& !res.feasible
            },
            None => {
                let w = scan_prefix(input@, leaf@, greedy_rules(), leaf@.len() as int);
                &&& w is Some
                &&& res.feasible == (w->0.len() == input@.len())
                &&& res.fail_reason == (if res.feasible {
                    None
                } else {
                    Some(FailReason::NotFullyConsumed)
                })
            },
        },
{
    let rules = ScanRules {
        threshold: 2,
        init_match: true,
        lazy: false,
        literal_must_match: true,
        content_must_match: false,
    };
    let out = scan_tokens(input, leaf, rules);
    match out.stop {
        Some(st) => FileResult {
            feasible: false,
            fail_token_idx: Some(st.index),
            fail_reason: Some(st.reason),
        },
        None => {
            if out.consumed != input.len() {
                FileResult {
                    feasible: false,
                    fail_token_idx: None,
                    fail_reason: Some(FailReason::NotFullyConsumed),
                }
            } else {
                FileResult { feasible: true, fail_token_idx: None, fail_reason: None }
            }
        },
    }
}

/// The report's wording of a refusal.
pub fn fail_reason_text(reason: FailReason) -> (s: &'static str)
    ensures
        s@ == (match reason {
            FailReason::InputExhausted => "input exhausted"@,
            FailReason::LiteralWithLongerMatch => "Literal selected but max_len > THRESHOLD"@,
            FailReason::LiteralMismatch => "Literal byte mismatch"@,
            FailReason::MatchNotLongest => "Match len != max_len (not greedy)"@,
            FailReason::MatchPosNotBest => "Match pos not in max_positions"@,
            FailReason::MatchContentMismatch => "Match content mismatch"@,
            FailReason::NotFullyConsumed => "input not fully consumed"@,
        }),
{
    match reason {
        FailReason::InputExhausted => "input exhausted",
        FailReason::LiteralWithLongerMatch => "Literal selected but max_len > THRESHOLD",
        FailReason::LiteralMismatch => "Literal byte mismatch",
        FailReason::MatchNotLongest => "Match len != max_len (not greedy)",
        FailReason::MatchPosNotBest => "Match pos not in max_positions",
        FailReason::MatchContentMismatch => "Match content mismatch",
        FailReason::NotFullyConsumed => "input not fully consumed",
    }
}

/// The report's bucket for the index of the first refused token.
pub fn fail_bucket(idx: Option<usize>) -> (s: &'static str)
    ensures
        s@ == (match idx {
            Some(i) => if i < 5 {
                "early[0..5)"@
            } else if i < 50 {
                "mid[5..50)"@
            } else if i < 500 {
                "deep[50..500)"@
            } else {
                "very_deep[500+)"@
            },
            None => "no_idx"@,
        }),
{
    match idx {
        Some(i) => if i < 5 {
            "early[0..5)"
        } else if i < 50 {
            "mid[5..50)"
        } else if i < 500 {
            "deep[50..500)"
        } else {
            "very_deep[500+)"
        },
        None => "no_idx",
    }
}

} // verus!
