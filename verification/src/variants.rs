//! Variants of the greedy check: the literal threshold, whether matches may
//! start on slots never written, and whether a literal may stand before a
//! longer match (lazy matching).  Match sources are not checked here.
use vstd::prelude::*;

use crate::model::Token;
use crate::scan::{lemma_scan_stays_stopped, scan_prefix, scan_tokens, ScanRules};

verus! {

/// One variant of the greedy check.
#[derive(Clone, Copy, Debug, PartialEq, Eq, Structural)]
pub struct Variant {
    pub threshold: usize,
    pub init_match: bool,
    pub lazy: bool,
}

/// The replay rules of a variant.
pub open spec fn variant_rules(v: Variant) -> ScanRules {
    ScanRules {
        threshold: v.threshold,
        init_match: v.init_match,
        lazy: v.lazy,
        literal_must_match: true,
        content_must_match: false,
    }
}

/// Whether `leaf` passes the variant's check over `input` and produces it
/// whole.
pub fn check_file_v(input: &[u8], leaf: &[Token], v: Variant) -> (ok: bool)
    ensures
        ok == {
            let w = scan_prefix(input@, leaf@, variant_rules(v), leaf@.len() as int);
            w is Some && w->0.len() == input@.len()
        },
{
    let rules = ScanRules {
        threshold: v.threshold,
        init_match: v.init_match,
        lazy: v.lazy,
        literal_must_match: true,
        content_must_match: false,
    };
    let out = scan_tokens(input, leaf, rules);
    match out.stop {
        Some(st) => {
            proof {
                lemma_scan_stays_stopped(input@, leaf@, rules, st, leaf@.len() as int);
            }
            false
        },
        None => out.consumed == input.len(),
    }
}

/// The eight variants the report compares, thresholds 2 and 3, matches from
/// any slot first, greedy before lazy.
pub fn all_variants() -> (vs: Vec<Variant>)
    ensures
        vs@ == seq![
            Variant { threshold: 2, init_match: true, lazy: false },
            Variant { threshold: 2, init_match: true, lazy: true },
            Variant { threshold: 2, init_match: false, lazy: false },
            Variant { threshold: 2, init_match: false, lazy: true },
            Variant { threshold: 3, init_match: true, lazy: false },
            Variant { threshold: 3, init_match: true, lazy: true },
            Variant { threshold: 3, init_match: false, lazy: false },
            Variant { threshold: 3, init_match: false, lazy: true },
        ],
{
    let mut vs: Vec<Variant> = Vec::new();
    let mut threshold: usize = 2;
    while threshold <= 3
        invariant
            2 <= threshold <= 4,
            vs@.len() == 4 * (threshold - 2),
            forall|i: int|
                0 <= i < vs@.len() ==> #[trigger] vs@[i] == (Variant {
                    threshold: (2 + i / 4) as usize,
                    init_match: (i / 2) % 2 == 0,
                    lazy: i % 2 == 1,
                }),
        decreases 4 - threshold,
    {
        vs.push(Variant { threshold, init_match: true, lazy: false });
        vs.push(Variant { threshold, init_match: true, lazy: true });
        vs.push(Variant { threshold, init_match: false, lazy: false });
        vs.push(Variant { threshold, init_match: false, lazy: true });
        threshold += 1;
    }
    assert(vs@ =~= seq![
        Variant { threshold: 2, init_match: true, lazy: false },
        Variant { threshold: 2, init_match: true, lazy: true },
        Variant { threshold: 2, init_match: false, lazy: false },
        Variant { threshold: 2, init_match: false, lazy: true },
        Variant { threshold: 3, init_match: true, lazy: false },
        Variant { threshold: 3, init_match: true, lazy: true },
        Variant { threshold: 3, init_match: false, lazy: false },
        Variant { threshold: 3, init_match: false, lazy: true },
    ]);
    vs
}

} // verus!
