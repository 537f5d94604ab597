use lf2_lzss::feasibility::{check_file, fail_bucket, fail_reason_text, FileResult};
use lf2_lzss::first_miss::{self, fmt_prev, MissKind, PrevTok};
use lf2_lzss::decode::decode_tokens;
use lf2_lzss::model::Token;
use lf2_lzss::ring::new_ring;
use lf2_lzss::scan::{naive_max_match, scan_tokens, FailReason, ScanRules};
use lf2_lzss::variants::{all_variants, check_file_v, Variant};

/// "ABC", 18 other letters, "ABC" again: the second "ABC" lies beyond the
/// lookahead of the first.
fn far_repeat() -> Vec<u8> {
    let mut v = b"ABC".to_vec();
    v.extend(0x61u8..0x73u8);
    v.extend_from_slice(b"ABC");
    v
}

fn far_repeat_leaf() -> Vec<Token> {
    let input = far_repeat();
    let mut t: Vec<Token> = input[..21].iter().map(|&b| Token::Literal(b)).collect();
    t.push(Token::Match { pos: 0xfee, len: 3 });
    t
}

/// The greedy rules with the write-back content check.
fn decoding_rules() -> ScanRules {
    ScanRules {
        threshold: 2,
        init_match: true,
        lazy: false,
        literal_must_match: true,
        content_must_match: true,
    }
}

fn lits(s: &[u8]) -> Vec<Token> {
    s.iter().map(|&b| Token::Literal(b)).collect()
}

fn fail(idx: usize, reason: FailReason) -> FileResult {
    FileResult { feasible: false, fail_token_idx: Some(idx), fail_reason: Some(reason) }
}

#[test]
fn feasible_stream() {
    assert_eq!(far_repeat().len(), 24);
    assert_eq!(
        check_file(&far_repeat(), &far_repeat_leaf()),
        FileResult { feasible: true, fail_token_idx: None, fail_reason: None }
    );
    assert_eq!(
        check_file(b"ABC", &lits(b"ABC")),
        FileResult { feasible: true, fail_token_idx: None, fail_reason: None }
    );
}

#[test]
fn literal_where_lookahead_matches() {
    // the lookahead itself offers "AAA" one slot ahead of the head
    let leaf = vec![Token::Literal(b'A'), Token::Match { pos: 0xfee, len: 3 }];
    assert_eq!(check_file(b"AAAA", &leaf), fail(0, FailReason::LiteralWithLongerMatch));
}

#[test]
fn literal_byte_mismatch() {
    assert_eq!(check_file(b"ABC", &lits(b"B")), fail(0, FailReason::LiteralMismatch));
}

#[test]
fn tokens_after_input_end() {
    assert_eq!(check_file(b"ABC", &lits(b"ABCD")), fail(3, FailReason::InputExhausted));
}

#[test]
fn input_not_fully_consumed() {
    assert_eq!(
        check_file(b"ABC", &lits(b"A")),
        FileResult {
            feasible: false,
            fail_token_idx: None,
            fail_reason: Some(FailReason::NotFullyConsumed),
        }
    );
}

#[test]
fn match_not_longest() {
    let mut leaf = far_repeat_leaf();
    leaf[21] = Token::Match { pos: 0xfee, len: 4 };
    assert_eq!(check_file(&far_repeat(), &leaf), fail(21, FailReason::MatchNotLongest));
}

#[test]
fn match_position_not_best() {
    let mut leaf = far_repeat_leaf();
    leaf[21] = Token::Match { pos: 0, len: 3 };
    assert_eq!(check_file(&far_repeat(), &leaf), fail(21, FailReason::MatchPosNotBest));
}

#[test]
fn match_from_lookahead_is_feasible() {
    // "AAA" one slot ahead of the head is the longest match, so the greedy
    // rules accept it, though the ring there still holds spaces
    let leaf = vec![Token::Match { pos: 0xfef, len: 3 }, Token::Literal(b'A')];
    assert_eq!(
        check_file(b"AAAA", &leaf),
        FileResult { feasible: true, fail_token_idx: None, fail_reason: None }
    );
    assert_eq!(decode_tokens(&leaf), b"   A".to_vec());
    // copying the match as a decoder does gives spaces, not "AAA"
    let out = scan_tokens(b"AAAA", &leaf, decoding_rules());
    let st = out.stop.unwrap();
    assert_eq!(st.index, 0);
    assert_eq!(st.reason, FailReason::MatchContentMismatch);
}

#[test]
fn match_reading_its_own_output_is_feasible() {
    // the match starts on the literal just written and reads back the byte
    // it writes itself
    let input = [0x41u8, 0x41, 0x41];
    let leaf = vec![Token::Literal(0x41), Token::Match { pos: 4078, len: 2 }];
    assert_eq!(
        check_file(&input, &leaf),
        FileResult { feasible: true, fail_token_idx: None, fail_reason: None }
    );
    let out = scan_tokens(&input, &leaf, decoding_rules());
    assert!(out.stop.is_none());
    assert_eq!(out.consumed, 3);
}

#[test]
fn reason_texts() {
    assert_eq!(fail_reason_text(FailReason::InputExhausted), "input exhausted");
    assert_eq!(
        fail_reason_text(FailReason::LiteralWithLongerMatch),
        "Literal selected but max_len > THRESHOLD"
    );
    assert_eq!(fail_reason_text(FailReason::LiteralMismatch), "Literal byte mismatch");
    assert_eq!(fail_reason_text(FailReason::MatchNotLongest), "Match len != max_len (not greedy)");
    assert_eq!(fail_reason_text(FailReason::MatchPosNotBest), "Match pos not in max_positions");
    assert_eq!(fail_reason_text(FailReason::MatchContentMismatch), "Match content mismatch");
    assert_eq!(fail_reason_text(FailReason::NotFullyConsumed), "input not fully consumed");
}

#[test]
fn buckets() {
    assert_eq!(fail_bucket(Some(0)), "early[0..5)");
    assert_eq!(fail_bucket(Some(5)), "mid[5..50)");
    assert_eq!(fail_bucket(Some(499)), "deep[50..500)");
    assert_eq!(fail_bucket(Some(500)), "very_deep[500+)");
    assert_eq!(fail_bucket(None), "no_idx");
}

#[test]
fn naive_max_match_over_lookahead() {
    let ring = new_ring();
    let written = vec![false; 4096];
    let (best, positions) = naive_max_match(&ring, &written, 0xfee, b"AAAA", 0, true);
    assert_eq!(best, 3);
    assert_eq!(positions, vec![0xfef]);
    // a match may not start on a slot never written
    let (best2, positions2) = naive_max_match(&ring, &written, 0xfee, b"AAAA", 0, false);
    assert_eq!(best2, 0);
    assert!(positions2.is_empty());
    // spaces everywhere match spaces
    let (best3, positions3) = naive_max_match(&ring, &written, 0xfee, b"  ", 0, true);
    assert_eq!(best3, 2);
    assert_eq!(positions3.len(), 4095);
}

#[test]
fn scan_reports_stop_details() {
    let rules = decoding_rules();
    let out = scan_tokens(b"AAAA", &[Token::Literal(b'A')], rules);
    let st = out.stop.unwrap();
    assert_eq!(st.index, 0);
    assert_eq!(st.reason, FailReason::LiteralWithLongerMatch);
    assert_eq!(st.best, 3);
    assert_eq!(st.n_positions, 1);
    assert_eq!(st.next_best, 3);
    assert_eq!(st.pos, 0);
    assert_eq!(out.consumed, 0);
    let ok = scan_tokens(&far_repeat(), &far_repeat_leaf(), rules);
    assert!(ok.stop.is_none());
    assert_eq!(ok.consumed, 24);
}

#[test]
fn first_miss_on_literal() {
    let leaf = vec![Token::Literal(b'A'), Token::Match { pos: 0xfee, len: 3 }];
    let rec = first_miss::check_file(b"AAAA", &leaf, 2, true).unwrap();
    assert_eq!(rec.fail_idx, 0);
    assert_eq!(rec.fail_kind, MissKind::Literal);
    assert_eq!(rec.fail_max_len, 3);
    assert_eq!(rec.fail_max_positions, 1);
    assert_eq!(rec.leaf_match_len, 0);
    assert_eq!(rec.next_max_len, 3);
    assert_eq!(rec.prev_kinds, "");
    assert_eq!(rec.input_pos, 0);
}

#[test]
fn first_miss_none_with_higher_threshold() {
    let leaf = vec![Token::Literal(b'A'), Token::Match { pos: 0xfee, len: 3 }];
    assert!(first_miss::check_file(b"AAAA", &leaf, 3, true).is_none());
    assert!(first_miss::check_file(&far_repeat(), &far_repeat_leaf(), 2, true).is_none());
}

#[test]
fn first_miss_on_match_position() {
    let leaf = vec![Token::Literal(b'A'), Token::Match { pos: 0, len: 3 }];
    let rec = first_miss::check_file(b"AAAA", &leaf, 3, true).unwrap();
    assert_eq!(rec.fail_idx, 1);
    assert_eq!(rec.fail_kind, MissKind::Match);
    assert_eq!(rec.fail_max_len, 3);
    assert_eq!(rec.fail_max_positions, 1);
    assert_eq!(rec.leaf_match_len, 3);
    assert_eq!(rec.next_max_len, 0);
    assert_eq!(rec.prev_kinds, "L");
    assert_eq!(rec.input_pos, 1);
}

#[test]
fn first_miss_past_input_end() {
    let mut leaf = far_repeat_leaf();
    leaf.push(Token::Literal(b'Z'));
    let rec = first_miss::check_file(&far_repeat(), &leaf, 2, true).unwrap();
    assert_eq!(rec.fail_idx, 22);
    assert_eq!(rec.fail_kind, MissKind::InputExhausted);
    assert_eq!(rec.fail_max_len, 0);
    assert_eq!(rec.fail_max_positions, 0);
    assert_eq!(rec.leaf_match_len, 0);
    assert_eq!(rec.next_max_len, 0);
    assert_eq!(rec.prev_kinds, "L,L,M(l=3,d=24)");
    assert_eq!(rec.input_pos, 24);
}

#[test]
fn fmt_prev_window() {
    assert_eq!(fmt_prev(&[]), "");
    assert_eq!(
        fmt_prev(&[PrevTok::Literal, PrevTok::Match { len: 3, dist: 5 }, PrevTok::Literal]),
        "L,M(l=3,d=5),L"
    );
}

#[test]
fn variants_in_order() {
    let v = all_variants();
    assert_eq!(v.len(), 8);
    assert_eq!(v[0], Variant { threshold: 2, init_match: true, lazy: false });
    assert_eq!(v[3], Variant { threshold: 2, init_match: false, lazy: true });
    assert_eq!(v[7], Variant { threshold: 3, init_match: false, lazy: true });
}

#[test]
fn variants_judge_run() {
    let leaf = vec![Token::Literal(b'A'), Token::Match { pos: 0xfee, len: 3 }];
    let expect = [false, false, true, true, true, true, true, true];
    for (v, e) in all_variants().iter().zip(expect.iter()) {
        assert_eq!(check_file_v(b"AAAA", &leaf, *v), *e, "{:?}", v);
    }
}

#[test]
fn feasible_streams_pass_weaker_checks() {
    let input = far_repeat();
    let leaf = far_repeat_leaf();
    assert!(check_file(&input, &leaf).feasible);
    assert!(first_miss::check_file(&input, &leaf, 2, true).is_none());
    for v in all_variants().into_iter().filter(|v| v.init_match) {
        assert!(check_file_v(&input, &leaf, v), "{:?}", v);
    }
}
