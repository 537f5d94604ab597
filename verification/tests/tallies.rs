use lf2_lzss::decode::DecodeError;
use lf2_lzss::frame::frame_payload;
use lf2_lzss::gamma::{
    self, constraint_rows, constraint_summary, legal_positions, process_tokens, tie_event_of,
    ConstraintSummary, GammaError, TieEvent,
};
use lf2_lzss::model::Token;
use lf2_lzss::offsets::{self, offset_bucket, OffsetStats};
use lf2_lzss::ring::{new_ring, push_byte};
use lf2_lzss::stats::{bytes_equal, Stats};

/// "ABCxABCyABC" and a stream for it whose last match is tied between
/// 0xfee (distance 8) and 0xff2 (distance 4) and takes 0xff2.
fn tied_input() -> Vec<u8> {
    b"ABCxABCyABC".to_vec()
}

fn tied_tokens() -> Vec<Token> {
    vec![
        Token::Literal(b'A'),
        Token::Literal(b'B'),
        Token::Literal(b'C'),
        Token::Literal(b'x'),
        Token::Match { pos: 0xfee, len: 3 },
        Token::Literal(b'y'),
        Token::Match { pos: 0xff2, len: 3 },
    ]
}

fn lf2_file(width: u16, height: u16, payload: &[u8]) -> Vec<u8> {
    let mut d = b"LEAF256\0".to_vec();
    d.extend_from_slice(&[0, 0, 0, 0]);
    d.extend_from_slice(&width.to_le_bytes());
    d.extend_from_slice(&height.to_le_bytes());
    d.extend_from_slice(&[0; 8]);
    d.extend_from_slice(payload);
    d
}

#[test]
fn legal_positions_of_tie() {
    let mut ring = new_ring();
    let mut r = 0xfee;
    for &b in b"ABCxABCy" {
        push_byte(&mut ring, &mut r, b);
    }
    assert_eq!(legal_positions(&ring, r, &tied_input(), 8, 3), vec![0xfee, 0xff2]);
    assert_eq!(legal_positions(&ring, r, &tied_input(), 8, 2), vec![0xfee, 0xff2]);
}

#[test]
fn tie_event_values() {
    let e = tie_event_of(&vec![0xfee, 0xff2], 0xff6, 0xff2);
    assert_eq!(
        e,
        TieEvent {
            chosen_dist: 4,
            min_dist: 4,
            max_dist: 8,
            min_pos: 0xfee,
            max_pos: 0xff2,
            rank_dist: 0,
            rank_pos: 1,
        }
    );
    let far = tie_event_of(&vec![0xfee, 0xff2], 0xff6, 0xfee);
    assert_eq!(far.rank_dist, 1);
    assert_eq!(far.rank_pos, 0);
    assert_eq!(far.chosen_dist, 8);
}

#[test]
fn gamma_tallies_one_file() {
    let mut st = gamma::Stats::new();
    process_tokens(&mut st, &tied_input(), &tied_tokens());
    assert_eq!(st.files, 1);
    assert_eq!(st.files_failed, 0);
    assert_eq!(st.total_tokens, 7);
    assert_eq!(st.total_match_tokens, 2);
    assert_eq!(st.total_multi_pos_tokens, 1);
    assert_eq!((st.h_min_dist, st.h_max_dist, st.h_min_pos, st.h_max_pos), (1, 0, 0, 1));
    assert_eq!(st.chosen_dist_hist, vec![0, 0, 0, 0, 1]);
    assert_eq!(st.chosen_minus_min_hist, vec![1]);
    assert_eq!(st.rank_dist_asc, vec![1]);
    assert_eq!(st.rank_pos_asc, vec![0, 1]);
    assert_eq!((st.chosen_dist_min_observed, st.chosen_dist_max_observed), (4, 4));
    assert_eq!(
        (st.files_full_min_dist, st.files_full_max_dist, st.files_full_min_pos, st.files_full_max_pos),
        (1, 0, 0, 1)
    );
}

#[test]
fn gamma_merge_adds() {
    let mut a = gamma::Stats::new();
    process_tokens(&mut a, &tied_input(), &tied_tokens());
    let mut b = gamma::Stats::new();
    process_tokens(&mut b, &tied_input(), &tied_tokens());
    a.merge(&b);
    assert_eq!(a.files, 2);
    assert_eq!(a.total_tokens, 14);
    assert_eq!(a.chosen_dist_hist, vec![0, 0, 0, 0, 2]);
    assert_eq!(a.rank_pos_asc, vec![0, 2]);
    assert_eq!(a.chosen_dist_min_observed, 4);
    let mut empty = gamma::Stats::new();
    empty.merge(&a);
    assert_eq!(empty.chosen_dist_min_observed, 4);
    assert_eq!(empty.files_full_max_pos, 2);
}

#[test]
fn gamma_process_file() {
    let f = lf2_file(11, 1, &frame_payload(&tied_tokens()));
    let mut st = gamma::Stats::new();
    assert_eq!(gamma::process_file(&f, &mut st), Ok(()));
    assert_eq!(st.total_multi_pos_tokens, 1);
    assert_eq!(st.files, 1);
    let mut st2 = gamma::Stats::new();
    assert_eq!(gamma::process_file(&f[..10], &mut st2), Err(GammaError::NotLf2));
    let tall = lf2_file(11, 2, &frame_payload(&tied_tokens()));
    assert_eq!(gamma::process_file(&tall, &mut st2), Err(GammaError::Decode(DecodeError::TooShort)));
    assert_eq!(st2.files, 0);
}

#[test]
fn constraint_rows_and_summary() {
    let rows = constraint_rows(&tied_input(), &tied_tokens());
    assert_eq!(rows.len(), 7);
    assert!(!rows[0].is_match);
    assert_eq!((rows[0].leaf_pos, rows[0].leaf_len), (b'A' as u32, 1));
    assert!(rows[0].legal.is_empty());
    assert_eq!((rows[4].input_pos, rows[4].ring_r), (4, 0xff2));
    assert_eq!(rows[4].legal, vec![0xfee]);
    assert_eq!((rows[6].token_idx, rows[6].input_pos, rows[6].ring_r), (6, 8, 0xff6));
    assert_eq!((rows[6].leaf_pos, rows[6].leaf_len), (0xff2, 3));
    assert_eq!(rows[6].legal, vec![0xfee, 0xff2]);
    assert_eq!(
        constraint_summary(&rows),
        ConstraintSummary { n_match_tokens: 2, n_unique_pos: 1, n_multi_pos: 1, sum_n_legal: 3, max_n_legal: 2 }
    );
}

#[test]
fn offset_buckets() {
    assert_eq!(offset_bucket(0xff6, 0xff2, 4), (0, 1));
    assert_eq!(offset_bucket(0xff6, 0xfee, 4), (0, 2));
    assert_eq!(offset_bucket(0xff6, 0xff2, 3), (1, 1));
    assert_eq!(offset_bucket(0xff6, 0xfee, 3), (-1, 3));
    assert_eq!(offset_bucket(0, 1, 1), (0, 12));
    assert_eq!(offset_bucket(50, 0, 100), (8, 0));
    assert_eq!(offset_bucket(51, 0, 100), (-8, 1));
}

#[test]
fn offset_tallies_of_tie() {
    let mut st = OffsetStats::new();
    st.record_tokens(&tied_input(), &tied_tokens(), 4);
    assert_eq!((st.total_chosen, st.total_rejected), (1, 1));
    assert_eq!(st.chosen_at(0, 1), 1);
    assert_eq!(st.rejected_at(0, 2), 1);
    assert_eq!(st.chosen_at(0, 2), 0);
    assert_eq!(st.chosen_at(9, 0), 0);
    assert_eq!(st.chosen.iter().sum::<u64>(), 1);
    let mut all = OffsetStats::new();
    all.merge(&st);
    all.merge(&st);
    assert_eq!(all.chosen_at(0, 1), 2);
    assert_eq!(all.total_rejected, 2);
}

#[test]
fn offsets_process_file() {
    let f = lf2_file(11, 1, &frame_payload(&tied_tokens()));
    let (w, st) = offsets::process_file(&f, 0).unwrap().unwrap();
    assert_eq!(w, 11);
    assert_eq!(st.chosen_at(4, 0), 1);
    assert_eq!(st.rejected_at(-3, 1), 1);
    assert!(offsets::process_file(&f, 5).unwrap().is_none());
    assert!(offsets::process_file(&f, 11).unwrap().is_some());
    assert_eq!(offsets::process_file(b"LEAF", 0).err(), Some(GammaError::NotLf2));
}

#[test]
fn stats_record_files() {
    let f = lf2_file(11, 1, &frame_payload(&tied_tokens()));
    let mut st = Stats::default();
    st.record(&f, &f);
    let mut g = f.clone();
    let n = g.len();
    g[n - 1] ^= 1;
    g.push(0);
    st.record(&f, &g);
    st.record(&[1, 2], &[1, 2]);
    assert_eq!(
        st,
        Stats { total: 3, binary_match: 2, payload_match: 1, total_payload_diff: 2, payload_diff_counted: 1 }
    );
    assert!(bytes_equal(&f, &f));
    assert!(!bytes_equal(&f, &g));
}

/// The tallies as a tuple of their fields, for comparisons.
fn fields(s: &gamma::Stats) -> (Vec<u64>, Vec<Vec<u64>>, (u16, u16)) {
    (
        vec![
            s.files,
            s.files_failed,
            s.total_tokens,
            s.total_match_tokens,
            s.total_multi_pos_tokens,
            s.h_min_dist,
            s.h_max_dist,
            s.h_min_pos,
            s.h_max_pos,
            s.files_full_min_dist,
            s.files_full_max_dist,
            s.files_full_min_pos,
            s.files_full_max_pos,
        ],
        vec![
            s.rank_dist_asc.clone(),
            s.rank_pos_asc.clone(),
            s.chosen_dist_hist.clone(),
            s.chosen_minus_min_hist.clone(),
        ],
        (s.chosen_dist_min_observed, s.chosen_dist_max_observed),
    )
}

/// 4096 bytes with a three-byte window repeated once, then that window
/// again, and a stream of literals closed by a match from the slot under
/// the head (distance 0), tied with the earlier copy.
fn head_slot_tie() -> (Vec<u8>, Vec<Token>) {
    let mut v = Vec::new();
    for k in 0..2048usize {
        v.push((k / 200 + 1) as u8);
        v.push((k % 200 + 33) as u8);
    }
    let head = [v[0], v[1], v[2]];
    v[100..103].copy_from_slice(&head);
    let mut toks: Vec<Token> = v.iter().map(|&b| Token::Literal(b)).collect();
    v.extend_from_slice(&head);
    toks.push(Token::Match { pos: 0xfee, len: 3 });
    (v, toks)
}

#[test]
fn gamma_workers_match_sequential() {
    let (x_in, x_toks) = (b"ABCzABCz".to_vec(), vec![
        Token::Literal(b'A'),
        Token::Literal(b'B'),
        Token::Literal(b'C'),
        Token::Literal(b'z'),
        Token::Match { pos: 0xfee, len: 4 },
    ]);
    let mut seq = gamma::Stats::new();
    process_tokens(&mut seq, &tied_input(), &tied_tokens());
    process_tokens(&mut seq, &x_in, &x_toks);
    let mut w1 = gamma::Stats::new();
    process_tokens(&mut w1, &tied_input(), &tied_tokens());
    let mut w2 = gamma::Stats::new();
    process_tokens(&mut w2, &x_in, &x_toks);
    let mut joined = gamma::Stats::new();
    joined.merge(&w2);
    joined.merge(&w1);
    assert_eq!(fields(&joined), fields(&seq));
    let mut other_order = w1;
    other_order.merge(&w2);
    assert_eq!(fields(&other_order), fields(&seq));
}

#[test]
fn gamma_merge_order_matters_for_distance_zero() {
    let (z_in, z_toks) = head_slot_tie();
    assert_eq!(lf2_lzss::decode::decode_tokens(&z_toks), z_in);
    let mut zero = gamma::Stats::new();
    process_tokens(&mut zero, &z_in, &z_toks);
    assert_eq!(zero.total_multi_pos_tokens, 1);
    assert_eq!(zero.chosen_dist_hist[0], 1);
    assert_eq!(zero.chosen_dist_min_observed, 0);
    let mut four = gamma::Stats::new();
    process_tokens(&mut four, &tied_input(), &tied_tokens());
    // sequential: the distance-0 choice resets the least distance
    let mut seq = gamma::Stats::new();
    process_tokens(&mut seq, &tied_input(), &tied_tokens());
    process_tokens(&mut seq, &z_in, &z_toks);
    assert_eq!(seq.chosen_dist_min_observed, 0);
    // merged: the least distance of the other worker survives
    let mut joined = zero;
    joined.merge(&four);
    assert_eq!(joined.chosen_dist_min_observed, 4);
}

#[test]
fn offset_counts_add_up() {
    let mut st = OffsetStats::new();
    st.record_tokens(&tied_input(), &tied_tokens(), 3);
    st.record_tokens(b"AAAAAA", &[Token::Literal(b'A'), Token::Match { pos: 0xfee, len: 5 }], 2);
    assert_eq!(st.chosen.iter().sum::<u64>(), st.total_chosen);
    assert_eq!(st.rejected.iter().sum::<u64>(), st.total_rejected);
    assert_eq!(st.total_chosen, 1);
    let mut both = OffsetStats::new();
    both.merge(&st);
    both.merge(&st);
    assert_eq!(both.chosen.iter().sum::<u64>(), both.total_chosen);
    assert_eq!(both.total_rejected, 2 * st.total_rejected);
}

#[test]
fn encode_tally_files_add_up() {
    let mut t = lf2_lzss::bench::EncodeTally::new();
    t.record(&[1], &[1]);
    t.record(&[1], &[2]);
    t.record(&[], &[2, 3]);
    assert_eq!(t.files, t.payload_match + t.payload_diff_files);
}
