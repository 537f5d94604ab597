use lf2_lzss::firstdiff::MatchCandidate;
use lf2_lzss::hashchain::{chain_depths, chain_rank, find_genuine_occurrences, merge_depths, HashFn};
use lf2_lzss::model::Token;
use lf2_lzss::replay::{replay_leaf_ring, replay_ring, replay_with_origin, WriteOrigin};
use lf2_lzss::shadow::{Origin, ShadowTree};
use lf2_lzss::teacher::{
    advance_one_literal, best_written_match, build_snapshots, build_state, classify_pair,
    find_all_occurrences, max_match_len, pos_class, window_class, DivClass,
};
use lf2_lzss::token::{apply_token, UniToken};

fn tied_input() -> Vec<u8> {
    b"ABCxABCyABC".to_vec()
}

fn tied_tokens() -> Vec<Token> {
    vec![
        Token::Literal(b'A'),
        Token::Literal(b'B'),
        Token::Literal(b'C'),
        Token::Literal(b'x'),
        Token::Match { pos: 0xfee, len: 3 },
        Token::Literal(b'y'),
        Token::Match { pos: 0xff2, len: 3 },
    ]
}

#[test]
fn replay_leaf_ring_stops_before_token() {
    let (ring, r, s) = replay_leaf_ring(&tied_tokens(), &tied_input(), 5);
    assert_eq!((r, s), (0xff5, 7));
    assert_eq!(&ring[0xfee..0xff5], b"ABCxABC");
    assert_eq!(ring[0xff5], 0x20);
    let (_, r_all, s_all) = replay_leaf_ring(&tied_tokens(), &tied_input(), 100);
    assert_eq!((r_all, s_all), (0xff9, 11));
}

#[test]
fn replay_leaf_ring_stops_at_input_end() {
    // the input is shorter than what the tokens stand for
    let (ring, r, s) = replay_leaf_ring(&tied_tokens(), b"ABCxA", 5);
    assert_eq!((r, s), (0xff3, 5));
    assert_eq!(&ring[0xfee..0xff3], b"ABCxA");
}

#[test]
fn replay_ring_snapshots() {
    let snaps = replay_ring(&tied_tokens(), &tied_input());
    assert_eq!(snaps.len(), 8);
    assert_eq!((snaps[0].1, snaps[0].2), (0xfee, 0));
    assert_eq!((snaps[5].1, snaps[5].2), (0xff5, 7));
    assert_eq!((snaps[7].1, snaps[7].2), (0xff9, 11));
    assert_eq!(&snaps[7].0[0xff6..0xff9], b"ABC");
}

#[test]
fn replay_origins() {
    let (ring, origin, r, s) = replay_with_origin(&tied_tokens(), &tied_input(), 7);
    assert_eq!((r, s), (0xff9, 11));
    assert_eq!(ring[0xff7], b'B');
    assert_eq!(origin[0xfee], WriteOrigin::Literal(0));
    assert_eq!(origin[0xff1], WriteOrigin::Literal(3));
    assert_eq!(origin[0xff2], WriteOrigin::Match(4));
    assert_eq!(origin[0xff5], WriteOrigin::Literal(5));
    assert_eq!(origin[0xff8], WriteOrigin::Match(6));
    assert_eq!(origin[0xff9], WriteOrigin::Initial);
    assert_eq!(origin[0], WriteOrigin::Initial);
}

#[test]
fn teacher_state_and_matches() {
    let input = tied_input();
    let (ring, tick, r, pos) = build_state(&tied_tokens(), &input, 6);
    assert_eq!((r, pos), (0xff6, 8));
    assert_eq!(tick[0xfee], 0);
    assert_eq!(tick[0xff5], 7);
    assert_eq!(tick[0xff6], u32::MAX);
    assert_eq!(best_written_match(&ring, &tick, &input, pos), Some((0xfee, 3)));
    assert_eq!(max_match_len(&ring, &tick, &input, pos, true), 3);
    // "xABCy" is still in the ring where it was written
    assert_eq!(max_match_len(&ring, &tick, &input, 3, true), 5);
    assert_eq!(max_match_len(&ring, &tick, &input, 7, false), 0);
    assert_eq!(best_written_match(&ring, &tick, &input, 11), None);
    assert_eq!(find_all_occurrences(&ring, b"ABC"), vec![0xfee, 0xff2]);
    assert!(find_all_occurrences(&ring, b"").is_empty());
    assert_eq!(window_class(&tick, 0xff5, 2), "partial");
    assert_eq!(window_class(&tick, 0xfee, 8), "fully_written");
    assert_eq!(window_class(&tick, 0, 3), "fully_unwritten");
    assert_eq!(window_class(&tick, 0, 0), "empty");
    assert_eq!(pos_class(4077, &tick), "bootstrap_band");
    assert_eq!(pos_class(0xff6, &tick), "dummy_outside_band");
    assert_eq!(pos_class(0xff2, &tick), "real_written");
}

#[test]
fn teacher_snapshots_and_one_literal() {
    let input = tied_input();
    let snaps = build_snapshots(&tied_tokens(), &input);
    assert_eq!(snaps.len(), 7);
    assert_eq!((snaps[6].0.r, snaps[6].1), (0xff6, 8));
    let next = advance_one_literal(&snaps[6].0, &input, 8);
    assert_eq!(next.r, 0xff7);
    assert_eq!(next.ring[0xff6], b'A');
    assert_eq!(next.write_tick[0xff6], 8);
    let same = advance_one_literal(&snaps[6].0, &input, 11);
    assert_eq!(same.ring, snaps[6].0.ring);
    assert_eq!(same.r, 0xff7);
}

#[test]
fn classify_divergences() {
    let cands = [MatchCandidate { pos: 0xfee, len: 3 }, MatchCandidate { pos: 0xff2, len: 3 }];
    let m = |pos: u16, len: u8| Token::Match { pos, len };
    assert_eq!(classify_pair(m(0xfee, 3), m(0xff2, 3), &cands), DivClass::TieSubF);
    assert_eq!(classify_pair(m(0x100, 3), m(0xff2, 3), &cands), DivClass::LeafNotCand);
    assert_eq!(classify_pair(m(0xfee, 3), m(0xff2, 4), &cands), DivClass::LenDiff);
    assert_eq!(classify_pair(m(0xfee, 3), Token::Literal(1), &cands), DivClass::KindDiff);
    assert_eq!(classify_pair(Token::Literal(1), Token::Literal(2), &cands), DivClass::KindDiffSameLiteral);
    let long = [MatchCandidate { pos: 1, len: 18 }, MatchCandidate { pos: 2, len: 18 }];
    assert_eq!(classify_pair(m(1, 18), m(2, 18), &long), DivClass::TieF);
    let mixed = [MatchCandidate { pos: 1, len: 3 }, MatchCandidate { pos: 2, len: 5 }];
    assert_eq!(classify_pair(m(1, 3), m(2, 3), &mixed), DivClass::LenDiff);
    assert_eq!(DivClass::TieSubF.label(), "TIE_SUBF");
    assert_eq!(DivClass::KindDiffSameLiteral.label(), "KIND_DIFF_SAME_LITERAL(unexpected)");
    assert_eq!(DivClass::KindDiffSameLiteral.short_label(), "KIND_DIFF");
    assert_eq!(DivClass::LeafNotCand.short_label(), "LEAF_NOT_CAND");
}

#[test]
fn hash_chain_ranks() {
    let input = tied_input();
    let (ring, tick, _, _) = build_state(&tied_tokens(), &input, 7);
    assert_eq!(HashFn::H1.raw(0x41, 0x42, 0x43), 0x55b);
    assert_eq!(HashFn::H2.raw(0x41, 0x42, 0x43), 0x10c03);
    assert_eq!(HashFn::H3.raw(0x41, 0x42, 0x43), 0x4572);
    assert_eq!(chain_rank(&ring, &tick, 0xfee, HashFn::H1, 0xfff), Some(3));
    assert_eq!(chain_rank(&ring, &tick, 0xff2, HashFn::H1, 0xfff), Some(2));
    assert_eq!(chain_rank(&ring, &tick, 0xff6, HashFn::H1, 0xfff), Some(1));
    assert_eq!(chain_rank(&ring, &tick, 0, HashFn::H1, 0xfff), None);
    // with an empty mask every written slot shares the chain
    assert_eq!(chain_rank(&ring, &tick, 0xfee, HashFn::H2, 0), Some(11));
    assert_eq!(find_genuine_occurrences(&ring, &tick, b"ABC"), vec![0xfee, 0xff2, 0xff6]);
    assert_eq!(find_genuine_occurrences(&ring, &tick, b"C  "), Vec::<usize>::new());
    assert!(find_genuine_occurrences(&ring, &tick, b"").is_empty());
}

#[test]
fn apply_token_replays() {
    let mut ring = lf2_lzss::ring::new_ring();
    let mut r = 0xfee;
    let mut s = 0;
    let input = tied_input();
    apply_token(&mut ring, &mut r, &mut s, &input, &UniToken::from(Token::Literal(b'A')));
    assert_eq!((r, s, ring[0xfee]), (0xfef, 1, b'A'));
    apply_token(&mut ring, &mut r, &mut s, &input, &UniToken::from(Token::Match { pos: 0xfee, len: 3 }));
    assert_eq!((r, s), (0xff2, 4));
    assert_eq!(&ring[0xfee..0xff2], b"AAAA");
}

#[test]
fn shadow_tree_history() {
    let mut t = ShadowTree::new(0xfee);
    assert_eq!(t.last_insert_tick[0xfee], 0);
    assert_eq!(t.last_insert_tick[0xfff], 0);
    assert_eq!(t.last_insert_tick[0], -1);
    assert!(t.in_tree_at(0xff0));
    assert!(!t.in_tree_at(5));
    t.on_byte(0xfee, false);
    assert_eq!(t.last_delete_tick[0xfee], 0);
    assert_eq!(t.origin[0xfee], Origin::Literal);
    assert_eq!((t.tick, t.skip_inserts), (1, 16));
    assert!(!t.in_tree_at(0xfee));
    for k in 1..17 {
        t.on_byte(0xfee + k, true);
    }
    assert_eq!(t.skip_inserts, 0);
    t.on_byte(0xfee + 17, true);
    // the slot 4078 after 0x1000 (that is 0xfee) is inserted at tick 17
    assert_eq!(t.last_insert_tick[0xfee], 17);
    assert!(t.in_tree_at(0xfee));
    assert_eq!(t.origin[0xfff], Origin::Match);
    t.apply_replace_log(&[0xfee, 3]);
    assert_eq!(t.last_delete_tick[0xfee], 18);
    assert_eq!(t.last_delete_tick[3], 18);
    assert!(!t.in_tree_at(0xfee));
}

#[test]
fn teacher_forcing_reproduces_decoder_ring() {
    let toks = vec![
        Token::Literal(b'A'),
        Token::Match { pos: 0xfee, len: 3 },
        Token::Literal(b'B'),
        Token::Match { pos: 0xfef, len: 5 },
    ];
    let input = lf2_lzss::decode::decode_tokens(&toks);
    assert_eq!(input, b"AAAABAAABA".to_vec());
    for k in 0..=toks.len() {
        let (ring, _tick, r, pos) = build_state(&toks, &input, k);
        let (dring, dr, ds) = replay_leaf_ring(&toks, &input, k);
        assert_eq!((r, pos), (dr, ds));
        assert_eq!(ring, dring);
    }
}

#[test]
fn fresh_shadow_tree_holds_lookahead() {
    let t = ShadowTree::new(0xfee);
    for p in 0xfee..0x1000u16 {
        assert!(t.in_tree_at(p), "slot {}", p);
    }
    assert!(!t.in_tree_at(0xfed));
    assert!(!t.in_tree_at(0));
    // a lookahead that wraps past the end of the ring
    let w = ShadowTree::new(4090);
    assert!(w.in_tree_at(4095));
    assert!(w.in_tree_at(11));
    assert!(!w.in_tree_at(12));
}

#[test]
fn chain_depths_of_a_stream() {
    let input = b"XYZABCABC";
    let mut tokens = vec![Token::Match { pos: 0x100, len: 3 }];
    tokens.extend(b"ABCABC".iter().map(|&b| Token::Literal(b)));
    // "ABC" at 0xff1 was written again at 0xff4: second in its chain
    tokens.push(Token::Match { pos: 0xff1, len: 3 });
    // nothing newer hashes like the "ABC" at 0xff4
    tokens.push(Token::Match { pos: 0xff4, len: 3 });
    let d = chain_depths(&tokens, input);
    assert_eq!(d.checked, 2);
    assert_eq!(d.skipped, 1);
    assert_eq!(d.max_rank, vec![2; 9]);
    assert_eq!(d.worst, vec![Some((9, 2)); 9]);
    let none = chain_depths(&tokens[..7], input);
    assert_eq!(none.checked, 0);
    assert_eq!(none.max_rank, vec![0; 9]);
    assert_eq!(none.worst, vec![None; 9]);
}

#[test]
fn depths_merge_over_files() {
    let input = b"XYZABCABC";
    let mut tokens = vec![Token::Match { pos: 0x100, len: 3 }];
    tokens.extend(b"ABCABC".iter().map(|&b| Token::Literal(b)));
    tokens.push(Token::Match { pos: 0xff1, len: 3 });
    let d = chain_depths(&tokens, input);
    let mut max_rank = vec![0usize; 9];
    let mut worst: Vec<Option<(usize, usize, usize)>> = vec![None; 9];
    merge_depths(&mut max_rank, &mut worst, 0, &d);
    assert_eq!(max_rank, vec![2; 9]);
    assert_eq!(worst, vec![Some((0, 9, 2)); 9]);
    // an equally deep file does not replace the first one
    merge_depths(&mut max_rank, &mut worst, 1, &d);
    assert_eq!(worst, vec![Some((0, 9, 2)); 9]);
}
