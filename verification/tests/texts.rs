use lf2_lzss::candidates::{pick_extremal, pick_lexicographic, Candidate, Feature};
use lf2_lzss::fields::parse_opt_u16;
use lf2_lzss::firstdiff::{candidate_stats, divergence_csv_line, uni_desc, CandStats, HistTally, MatchCandidate};
use lf2_lzss::hashchain::{all_hashes, hash_masks, HashFn};
use lf2_lzss::model::Token;
use lf2_lzss::hashchain::replay_fed;
use lf2_lzss::pairwise::{candidate_features, tie_context, tie_rows, token_history, HistKind, TieRow, TieSelection};
use lf2_lzss::text::{push_dec, push_dec_pad, push_digit, push_digit_upper, push_hex, push_hex_upper};
use lf2_lzss::tiebreak::{
    compare_windows, dist_to_r, hit, is_none_of_6, is_pf_hit, rank_by_dist, ring_dist, DeepscanRow, OffCode,
};
use lf2_lzss::token::{
    byte_offset_at_token, find_divergence, find_first_divergence, first_divergence, token_eq, token_len,
    token_step, uni_kind_str, DivergenceInfo, UniToken,
};
use lf2_lzss::tokfmt::{
    dump_lookahead, dump_parallel, dump_ring_rows, fmt_tok, fmt_uni, format_token, ring_row_str, token_str,
};

fn tied_tokens() -> Vec<Token> {
    vec![
        Token::Literal(b'A'),
        Token::Literal(b'B'),
        Token::Literal(b'C'),
        Token::Literal(b'x'),
        Token::Match { pos: 0xfee, len: 3 },
        Token::Literal(b'y'),
        Token::Match { pos: 0xff2, len: 3 },
    ]
}

fn mtok(pos: u16, len: u8) -> UniToken {
    UniToken::from(Token::Match { pos, len })
}

fn cand(position: i64, dist: i64) -> Candidate {
    Candidate {
        pos: position as i32,
        is_winner: false,
        position,
        dist_to_r: dist,
        last_insert: 0,
        insert_count: 0,
        last_promotion: 0,
        promotion_count: 0,
        last_replace: 0,
        replace_count: 0,
        tree_depth: 0,
        pf_rank: 0,
        written: 1,
        on_path: 0,
        in_tree: 0,
    }
}

#[test]
fn token_renderings() {
    assert_eq!(fmt_uni(Token::Match { pos: 0x10, len: 3 }), "Match{pos=0x010, len=3}");
    assert_eq!(fmt_uni(Token::Literal(0x0a)), "Literal(0x0a)");
    assert_eq!(fmt_tok(&Token::Literal(65)), "L(65)");
    assert_eq!(fmt_tok(&Token::Match { pos: 4078, len: 18 }), "M(4078,18)");
    assert_eq!(token_str(&Token::Literal(0xab)), "L(AB)");
    assert_eq!(token_str(&Token::Match { pos: 0xfee, len: 3 }), "M(p=0FEE,l=03)");
    assert_eq!(format_token(None), "(end)");
    assert_eq!(format_token(Some(&Token::Literal(5))), "Lit(0x05)");
    assert_eq!(format_token(Some(&Token::Match { pos: 0xfee, len: 18 })), "Match{pos:0xfee, len:18}");
    assert_eq!(uni_desc(&mtok(0xfee, 3)), "Match { pos: 0xfee, len: 3 }");
    assert_eq!(uni_desc(&UniToken::from(Token::Literal(0x0a))), "Literal(0x0a)");
}

fn row_buf() -> Vec<u8> {
    let mut b: Vec<u8> = (0x41u8..0x51u8).collect();
    b.extend_from_slice(&[0x00, 0x7f, 0x20, 0x80]);
    b
}

#[test]
fn ring_rows() {
    let b = row_buf();
    assert_eq!(ring_row_str(&b, 0), "41 42 43 44 45 46 47 48 49 4a 4b 4c 4d 4e 4f 50 | ABCDEFGHIJKLMNOP");
    assert_eq!(ring_row_str(&b, 16), format!("00 7f 20 80 | .. .{}", " ".repeat(12)));
    assert_eq!(ring_row_str(&b, 40), format!(" | {}", " ".repeat(16)));
}

#[test]
fn lookahead_line() {
    let b = row_buf();
    assert_eq!(dump_lookahead(&b, 16), "text_buf[r..r+F] = 00 7f 20 80 | .. .");
    assert_eq!(dump_lookahead(&b, -1), "text_buf[r..r+F] = | ");
    assert_eq!(dump_lookahead(&b, 30), "text_buf[r..r+F] = | ");
    let long: Vec<u8> = vec![0x41; 30];
    assert_eq!(dump_lookahead(&long, 0), format!("text_buf[r..r+F] = {}| {}", "41 ".repeat(18), "A".repeat(18)));
}

#[test]
fn ring_rows_around_positions() {
    let ring = lf2_lzss::ring::new_ring();
    let out = dump_ring_rows(&ring, &[0x20]);
    let lines: Vec<&str> = out.lines().collect();
    assert_eq!(lines.len(), 3);
    let spaces_row = format!("{} | {}", vec!["20"; 16].join(" "), " ".repeat(16));
    assert_eq!(lines[0], format!("    ring[0x010] = {}", spaces_row));
    assert_eq!(lines[2], format!("    ring[0x030] = {}", spaces_row));
    let gap = dump_ring_rows(&ring, &[0x20, 0x100]);
    let gl: Vec<&str> = gap.lines().collect();
    assert_eq!(gl.len(), 7);
    assert_eq!(gl[3], "    ...");
    assert!(gl[4].starts_with("    ring[0x0f0] = "));
    assert!(dump_ring_rows(&ring, &[]).is_empty());
}

#[test]
fn parallel_dump() {
    let s = dump_parallel(&[1, 2, 3], &[1, 9], 0, 3);
    assert_eq!(s, "  0x0000 O: 01 02 03\n         R: 01 09 --\n         d: \u{b7}\u{b7} XX XX\n");
    let a: Vec<u8> = (0..17).collect();
    let two = dump_parallel(&a, &a, 0, 17);
    let lines: Vec<&str> = two.lines().collect();
    assert_eq!(lines.len(), 6);
    assert_eq!(lines[3], "  0x0010 O: 10");
    assert_eq!(lines[5], "         d: \u{b7}\u{b7}");
    assert_eq!(dump_parallel(&a, &a, 5, 5), "");
}

#[test]
fn candidate_comparison() {
    let cands = [
        MatchCandidate { pos: 0xfee, len: 3 },
        MatchCandidate { pos: 0xff2, len: 3 },
        MatchCandidate { pos: 0x10, len: 5 },
    ];
    assert_eq!(
        candidate_stats(&cands, &mtok(0xfee, 3)),
        CandStats {
            leaf_in_candidates: true,
            max_candidate_len: 5,
            same_len_different_pos_count: 1,
            longer_than_leaf_count: 1,
        }
    );
    assert_eq!(
        candidate_stats(&cands, &UniToken::from(Token::Literal(1))),
        CandStats {
            leaf_in_candidates: false,
            max_candidate_len: 5,
            same_len_different_pos_count: 0,
            longer_than_leaf_count: 3,
        }
    );
    assert_eq!(candidate_stats(&[], &mtok(1, 3)).max_candidate_len, 0);
}

#[test]
fn hist_tally_records() {
    let mut t = HistTally::new();
    t.record(&mtok(0xfee, 3), &mtok(0xff2, 4), true);
    assert_eq!((t.divergent, t.leaf_in, t.leaf_out), (1, 1, 0));
    assert_eq!(t.kind_dist, vec![0, 0, 0, 1]);
    assert_eq!(t.len_delta[254], 1);
    assert_eq!(t.pos_sign, vec![1, 0, 0]);
    t.record(&UniToken::from(Token::Literal(0)), &mtok(1, 3), false);
    assert_eq!((t.divergent, t.leaf_in, t.leaf_out), (2, 1, 1));
    assert_eq!(t.kind_dist, vec![0, 1, 0, 1]);
    assert_eq!(t.len_delta.iter().sum::<usize>(), 1);
}

#[test]
fn divergence_line() {
    let d = DivergenceInfo {
        token_index: 6,
        byte_offset: 8,
        s: 8,
        ring: vec![],
        ring_r: 0xff6,
        leaf: mtok(0xff2, 3),
        oku: mtok(0xfee, 3),
    };
    let cs = CandStats {
        leaf_in_candidates: true,
        max_candidate_len: 3,
        same_len_different_pos_count: 1,
        longer_than_leaf_count: 0,
    };
    assert_eq!(
        divergence_csv_line("f.lf2", &d, &cs, 2, 4),
        "f.lf2,6,8,0,2,0xff6,match,0xff2,3,match,0xfee,3,1,2,3,1,0"
    );
    let d2 = DivergenceInfo { leaf: UniToken::from(Token::Literal(0x41)), ..d };
    let cs2 = CandStats { leaf_in_candidates: false, ..cs };
    assert_eq!(
        divergence_csv_line("g", &d2, &cs2, 0, 3),
        "g,6,8,2,2,0xff6,lit,-,lit:0x41,match,0xfee,3,0,0,3,1,0"
    );
}

#[test]
fn token_helpers() {
    let m = Token::Match { pos: 7, len: 9 };
    assert_eq!(token_len(&m), 9);
    assert_eq!(token_len(&Token::Literal(0)), 1);
    assert_eq!(token_step(&m), 9);
    assert!(token_eq(&m, &Token::Match { pos: 7, len: 9 }));
    assert!(!token_eq(&m, &Token::Match { pos: 8, len: 9 }));
    assert!(!token_eq(&Token::Literal(1), &Token::Literal(2)));
    assert_eq!(uni_kind_str(&mtok(1, 3)), "match");
    assert_eq!(uni_kind_str(&UniToken::from(Token::Literal(1))), "lit");
}

#[test]
fn divergence_indices() {
    let a = tied_tokens();
    let mut b = a.clone();
    assert_eq!(first_divergence(&a, &b), None);
    b[6] = Token::Match { pos: 0xfee, len: 3 };
    assert_eq!(first_divergence(&a, &b), Some(6));
    assert_eq!(find_divergence(&a, &b), Some(6));
    assert_eq!(first_divergence(&a, &a[..5]), Some(5));
    assert_eq!(find_divergence(&a, &a[..5]), None);
}

#[test]
fn payload_offsets() {
    let t = tied_tokens();
    assert_eq!(byte_offset_at_token(&t, 0), 1);
    assert_eq!(byte_offset_at_token(&t, 4), 5);
    assert_eq!(byte_offset_at_token(&t, 5), 7);
    assert_eq!(byte_offset_at_token(&t, 7), 10);
    assert_eq!(byte_offset_at_token(&t, 100), 10);
    let nine: Vec<Token> = (0..9u8).map(Token::Literal).collect();
    assert_eq!(byte_offset_at_token(&nine, 8), 10);
}

#[test]
fn first_divergence_with_state() {
    let a = tied_tokens();
    let mut b = a.clone();
    b[6] = Token::Match { pos: 0xfee, len: 3 };
    let input = b"ABCxABCyABC";
    let d = find_first_divergence(&a, &b, input).unwrap();
    assert_eq!((d.token_index, d.byte_offset, d.s, d.ring_r), (6, 8, 8, 0xff6));
    assert_eq!(&d.ring[0xfee..0xff6], b"ABCxABCy");
    assert_eq!((d.leaf.is_match, d.leaf.pos, d.leaf.len), (true, 0xff2, 3));
    assert_eq!((d.oku.is_match, d.oku.pos, d.oku.len), (true, 0xfee, 3));
    let short = find_first_divergence(&a, &a[..6], input).unwrap();
    assert_eq!(short.token_index, 6);
    assert_eq!((short.oku.is_match, short.oku.lit, short.oku.pos, short.oku.len), (false, 0xfe, 0xffff, 0));
    assert!(find_first_divergence(&a, &a, input).is_none());
}

#[test]
fn tiebreak_measures() {
    assert!(hit(Some(5), 5));
    assert!(!hit(Some(4), 5));
    assert!(!hit(None, 5));
    assert_eq!(dist_to_r(0x10, 0x20), 4080);
    assert_eq!(dist_to_r(-5, 0), 4091);
    assert_eq!(dist_to_r(0x30, 0x20), 0x10);
    assert_eq!(ring_dist(5, 0xffe), 7);
    assert_eq!(ring_dist(0x1010, 0x10), 0);
    let c = [(0x10u16, 5usize), (0x20, 3), (0x30, 5), (0x40, 1)];
    assert_eq!(rank_by_dist(&c, 0x30), Some((5, 3)));
    assert_eq!(rank_by_dist(&c, 0x40), Some((1, 1)));
    assert_eq!(rank_by_dist(&c, 0x50), None);
}

#[test]
fn window_comparison() {
    let key: Vec<u8> = (0..18).collect();
    let mut node = key.clone();
    node[0] = 99;
    assert_eq!(compare_windows(&key, &node), (18, None, None));
    node[7] = 70;
    node[9] = 90;
    assert_eq!(compare_windows(&key, &node), (7, Some(7), Some(70)));
}

#[test]
fn deepscan_rows() {
    let row = DeepscanRow {
        file: String::from("a.lf2"),
        input_pos: 0,
        len: 3,
        leaf_pos: 5,
        pf: Some(5),
        pl: None,
        sf: None,
        sl: Some(4),
        rot_a: None,
        rot_b: None,
    };
    assert!(is_pf_hit(&row));
    assert!(!is_none_of_6(&row));
    let miss = DeepscanRow { pf: Some(6), rot_b: Some(9), ..row };
    assert!(!is_pf_hit(&miss));
    assert!(is_none_of_6(&miss));
    let late = DeepscanRow { pf: None, rot_b: Some(5), file: String::new(), ..miss };
    assert!(!is_none_of_6(&late));
}

#[test]
fn off_codes() {
    assert_eq!(OffCode::from_code(0), OffCode::OnPath);
    assert_eq!(OffCode::from_code(4), OffCode::BranchRightVsLeft);
    assert_eq!(OffCode::from_code(2).label(), "root_byte_mismatch");
    assert_eq!(OffCode::from_code(1).label(), "not_in_tree");
    assert_eq!(OffCode::from_code(3).label(), "branch_search_left_pos_right");
    assert_eq!(OffCode::OnPath.label(), "on_path");
    assert_eq!(OffCode::BranchRightVsLeft.label(), "branch_search_right_pos_left");
}

#[test]
fn hash_names() {
    assert_eq!(all_hashes(), vec![HashFn::H1, HashFn::H2, HashFn::H3]);
    assert_eq!(hash_masks(), vec![0xfff, 0x7ff, 0x3ff]);
    assert_eq!(HashFn::H1.name(), "h1_shift4_2_0");
    assert_eq!(HashFn::H2.name(), "h2_deflate_roll");
    assert_eq!(HashFn::H3.name(), "h3_b0b1_xor_b2");
    assert_eq!(HashFn::H3.short_name(), "h3");
}

#[test]
fn extremal_picks() {
    let c = [cand(10, 5), cand(20, 3), cand(30, 7)];
    assert_eq!(pick_extremal(&c, Feature::DistToR, true), Some(1));
    assert_eq!(pick_extremal(&c, Feature::DistToR, false), Some(2));
    let tie = [cand(10, 3), cand(20, 3), cand(30, 7)];
    assert_eq!(pick_extremal(&tie, Feature::DistToR, true), None);
    assert_eq!(pick_extremal(&tie, Feature::DistToR, false), Some(2));
    assert_eq!(pick_extremal(&tie, Feature::Written, true), None);
    assert_eq!(pick_lexicographic(&tie, Feature::DistToR, true, Feature::Position, false), Some(1));
    assert_eq!(pick_lexicographic(&tie, Feature::DistToR, true, Feature::Position, true), Some(0));
    assert_eq!(pick_lexicographic(&c, Feature::DistToR, true, Feature::Position, true), Some(1));
    let twice = [cand(10, 3), cand(10, 3), cand(30, 7)];
    assert_eq!(pick_lexicographic(&twice, Feature::DistToR, true, Feature::Position, true), None);
    assert_eq!(Feature::DistToR.value(&c[2]), 7);
    assert_eq!(Feature::Position.value(&c[2]), 30);
    assert_eq!(Feature::PfRank.name(), "pf_rank");
    assert_eq!(Feature::LastPromotion.name(), "last_promotion");
}

#[test]
fn optional_cells() {
    assert_eq!(parse_opt_u16("None"), None);
    assert_eq!(parse_opt_u16(" Some(12) "), Some(12));
    assert_eq!(parse_opt_u16("Some(+7)"), Some(7));
    assert_eq!(parse_opt_u16("Some(65535)"), Some(65535));
    assert_eq!(parse_opt_u16("Some(65536)"), None);
    assert_eq!(parse_opt_u16("Some(007)"), Some(7));
    assert_eq!(parse_opt_u16("Some()"), None);
    assert_eq!(parse_opt_u16("Some(+)"), None);
    assert_eq!(parse_opt_u16("Some(-1)"), None);
    assert_eq!(parse_opt_u16("Some( 5)"), None);
    assert_eq!(parse_opt_u16("some(5)"), None);
    assert_eq!(parse_opt_u16("Some(5"), None);
    assert_eq!(parse_opt_u16("\u{a0}Some(5)\u{3000}\n"), Some(5));
    assert_eq!(parse_opt_u16("\tNone\r\n"), None);
    assert_eq!(parse_opt_u16(""), None);
}

#[test]
fn number_text() {
    let mut s = String::new();
    push_dec(&mut s, 255);
    s.push(',');
    push_dec(&mut s, 0);
    s.push(',');
    push_hex(&mut s, 0xab, 4);
    s.push(',');
    push_hex(&mut s, 0x1234, 2);
    s.push(',');
    push_hex_upper(&mut s, 0xab, 1);
    s.push(',');
    push_dec_pad(&mut s, 7, 3);
    s.push(',');
    push_dec_pad(&mut s, 1234, 2);
    s.push(',');
    push_digit(&mut s, 11);
    push_digit_upper(&mut s, 11);
    assert_eq!(s, "255,0,00ab,1234,AB,007,1234,bB");
}

#[test]
fn tie_rows_select_longest() {
    let c = |pos: u16, len: u8| MatchCandidate { pos, len };
    let cands = [c(0xfee, 3), c(0x10, 5), c(0xff2, 5), c(0x20, 5)];
    let leaf = Token::Match { pos: 0xff2, len: 5 };
    assert_eq!(
        tie_rows(&cands, 0xff6, leaf, 32),
        TieSelection::Tied(vec![
            TieRow { pos: 0x10, len: 5, dist: 0xfe6, is_leaf: false },
            TieRow { pos: 0xff2, len: 5, dist: 4, is_leaf: true },
            TieRow { pos: 0x20, len: 5, dist: 0xfd6, is_leaf: false },
        ])
    );
    assert_eq!(tie_rows(&cands, 0xff6, leaf, 2), TieSelection::TooMany);
    assert_eq!(tie_rows(&cands, 0xff6, Token::Literal(1), 32), TieSelection::NotTied);
    assert_eq!(tie_rows(&[c(1, 5), c(2, 3)], 0, leaf, 32), TieSelection::NotTied);
    assert_eq!(tie_rows(&[c(1, 2), c(2, 2)], 0, leaf, 32), TieSelection::NotTied);
    assert_eq!(tie_rows(&[], 0, leaf, 32), TieSelection::NotTied);
}

#[test]
fn debug_text_reads_back() {
    for x in [None, Some(0u16), Some(7), Some(10), Some(4095), Some(65535)] {
        assert_eq!(parse_opt_u16(&format!("{:?}", x)), x);
    }
}

#[test]
fn history_before_a_tie() {
    let ts = vec![
        Token::Literal(b'A'),
        Token::Match { pos: 1, len: 5 },
        Token::Literal(b'B'),
        Token::Match { pos: 2, len: 3 },
    ];
    let h = token_history(&ts, 4);
    assert_eq!(&h.kinds[..5], &[HistKind::Match, HistKind::Literal, HistKind::Match, HistKind::Literal, HistKind::Nothing]);
    assert_eq!(h.lens, vec![3, 1, 5, 1, 0, 0, 0, 0, 0, 0]);
    assert_eq!(h.last_match_len, 3);
    assert_eq!(h.last_literal_byte, b'B');
    assert_eq!((h.recent_m_count, h.recent_l_count), (2, 2));
    assert_eq!(h.recent_avg_len_x10, 25);
    assert_eq!((h.last5_max_len, h.last5_min_len), (5, 1));
    let h2 = token_history(&ts, 2);
    assert_eq!(h2.last_literal_byte, b'A');
    assert_eq!(h2.recent_avg_len_x10, 30);
    let h0 = token_history(&ts, 0);
    assert!(h0.kinds.iter().all(|k| *k == HistKind::Nothing));
    assert_eq!(h0.kinds[0].letter(), 'N');
    assert_eq!((h0.recent_avg_len_x10, h0.last5_max_len, h0.last5_min_len, h0.last_match_len), (0, 0, 0, 0));
    let lits = vec![Token::Literal(b'x'); 12];
    let h3 = token_history(&lits, 12);
    assert_eq!((h3.recent_m_count, h3.recent_l_count, h3.recent_avg_len_x10), (0, 10, 10));
    assert_eq!(h3.kinds[9].letter(), 'L');
}

#[test]
fn tie_measures() {
    let input = b"ABCDEFGHIJ";
    let t = tie_context(input, 3, 3, 4, 2, 48);
    assert_eq!(t.in_bytes, b"DEFGHIJ\0\0".to_vec());
    assert_eq!(t.in_after_match, b'G');
    assert_eq!((t.col, t.row, t.wrap_count, t.total_pixels, t.colors_bucket), (3, 0, 0, 8, 1));
    let t0 = tie_context(input, 9, 3, 0, 0, 7);
    assert_eq!((t0.col, t0.row, t0.in_after_match, t0.colors_bucket), (0, 0, 0, 5));
    assert_eq!(tie_context(input, 4096 * 3 + 1, 3, 4096, 4, 2).wrap_count, 3);
}

#[test]
fn candidate_measures() {
    let (ring, ticks, writes, r) = replay_fed(b"ABCDE", 3);
    assert_eq!(r, 0xff1);
    assert_eq!(&ring[0xfee..0xff2], b"ABC ");
    assert_eq!((ticks[0xfee], ticks[0xff0], ticks[0xff1]), (0, 2, u32::MAX));
    assert_eq!((writes[0xfee], writes[0xff1]), (1, 0));
    let c = MatchCandidate { pos: 0xfee, len: 3 };
    let f = candidate_features(&ring, &ticks, &writes, r, 3, c, 3, 0xfee, 3, 2);
    assert_eq!(f.dist, 3);
    assert!(f.is_leaf);
    assert_eq!(f.ring_before, vec![b' '; 8]);
    assert_eq!(f.ring_after, vec![b' '; 8]);
    assert_eq!((f.age_start, f.age_end, f.writes_start, f.writes_end), (3, 1, 1, 1));
    assert_eq!((f.dist_mod_w, f.dist_div_w, f.wrap_x_dist, f.wrap_x_mod_w), (1, 1, 0, 0));
    let g = candidate_features(&ring, &ticks, &writes, r, 3, MatchCandidate { pos: 0xfef, len: 2 }, 3, 0xfee, 3, 0);
    assert!(!g.is_leaf);
    assert_eq!(g.ring_before[0], b'A');
    assert_eq!(g.ring_before[1], b' ');
    assert_eq!((g.age_start, g.age_end, g.writes_end), (2, u32::MAX, 0));
    assert_eq!((g.dist, g.dist_mod_w, g.dist_div_w), (2, 0, 0));
    let h = candidate_features(&ring, &ticks, &writes, r, 4096 * 5, c, 3, 0, 0, 2);
    assert_eq!((h.wrap_x_dist, h.wrap_x_mod_w), (15, 5));
    let big = candidate_features(&ring, &ticks, &writes, r, u32::MAX as usize, c, 3, 0, 0, 2);
    assert_eq!(big.wrap_x_dist, 3 * (u32::MAX / 4096));
}
