use lf2_lzss::bench::{
    bench_file, compare_payloads, encode_with, payload_diff_count, EncodeTally, Encoder, PayloadComparison,
};
use lf2_lzss::decode::{decode_tokens, decompress_to_tokens, DecodeError};
use lf2_lzss::gamma::GammaError;
use lf2_lzss::encode::{encode_2d, encode_2d_priority, encode_m7, encode_rank1, priority_2d, SelectRule};
use lf2_lzss::frame::frame_payload;
use lf2_lzss::model::Token;

/// 4096 bytes, none a space, in which no three-byte window occurs twice,
/// followed by their first three bytes again.
fn distinct_windows_then_repeat() -> Vec<u8> {
    let mut v = Vec::new();
    for k in 0..2048usize {
        v.push((k / 200 + 1) as u8);
        v.push((k % 200 + 33) as u8);
    }
    let head = [v[0], v[1], v[2]];
    v.extend_from_slice(&head);
    v
}

/// A small image with repeated rows: 8 pixels wide, 6 rows.
fn striped_image() -> Vec<u8> {
    let mut v = Vec::new();
    for y in 0..6u8 {
        for x in 0..8u8 {
            v.push(if y % 2 == 0 { x * 3 } else { 40 + (x % 3) });
        }
    }
    v
}

fn aaaa_tokens() -> Vec<Token> {
    vec![Token::Literal(b'A'), Token::Match { pos: 0xfee, len: 3 }]
}

#[test]
fn rank1_on_run() {
    assert_eq!(encode_rank1(b"AAAA"), aaaa_tokens());
}

#[test]
fn rank1_short_inputs_are_literals() {
    assert_eq!(encode_rank1(b""), Vec::<Token>::new());
    assert_eq!(encode_rank1(b"AB"), vec![Token::Literal(b'A'), Token::Literal(b'B')]);
}

#[test]
fn rank1_prefers_second_closest() {
    // "ABC" twice before the last "ABC": positions 0xfee and 0xff2 tie
    let input = b"ABCxABCyABC";
    let toks = encode_rank1(input);
    assert_eq!(*toks.last().unwrap(), Token::Match { pos: 0xfee, len: 3 });
    assert_eq!(decode_tokens(&toks), input.to_vec());
}

#[test]
fn encoders_round_trip_on_image() {
    let img = striped_image();
    assert_eq!(decode_tokens(&encode_rank1(&img)), img);
    assert_eq!(decode_tokens(&encode_2d(&img, 8)), img);
    assert_eq!(decode_tokens(&encode_2d_priority(&img, 8)), img);
    for rule in [SelectRule::LeftmostPos, SelectRule::MinDist, SelectRule::MaxDist] {
        assert_eq!(decode_tokens(&encode_m7(&img, 8, 0, rule)), img);
        assert_eq!(decode_tokens(&encode_m7(&img, 8, 2, rule)), img);
    }
}

#[test]
fn m7_on_run() {
    assert_eq!(encode_m7(b"AAAA", 4, 0, SelectRule::LeftmostPos), aaaa_tokens());
    assert_eq!(encode_m7(b"AAAA", 4, 0, SelectRule::MinDist), aaaa_tokens());
    assert_eq!(encode_m7(b"AAAA", 4, 0, SelectRule::MaxDist), aaaa_tokens());
}

#[test]
fn m7_forces_literals_in_early_rows() {
    let toks = encode_m7(b"AAAAAAAA", 4, 1, SelectRule::LeftmostPos);
    // row 0 (bytes 0..4) is all literals, then one match covers row 1
    assert_eq!(
        toks,
        vec![
            Token::Literal(b'A'),
            Token::Literal(b'A'),
            Token::Literal(b'A'),
            Token::Literal(b'A'),
            Token::Match { pos: 0xfee, len: 4 },
        ]
    );
    assert_eq!(decode_tokens(&toks), b"AAAAAAAA".to_vec());
}

#[test]
fn m7_leftmost_takes_smallest_position() {
    let input = b"ABCxABCyABC";
    let toks = encode_m7(input, 11, 0, SelectRule::LeftmostPos);
    assert_eq!(*toks.last().unwrap(), Token::Match { pos: 0xfee, len: 3 });
    let near = encode_m7(input, 11, 0, SelectRule::MinDist);
    assert_eq!(*near.last().unwrap(), Token::Match { pos: 0xff2, len: 3 });
    let far = encode_m7(input, 11, 0, SelectRule::MaxDist);
    assert_eq!(*far.last().unwrap(), Token::Match { pos: 0xfee, len: 3 });
}

#[test]
fn m7_distance_rules_fall_back_to_position_zero() {
    // the only slot reproducing the last three bytes is the head itself
    let input = distinct_windows_then_repeat();
    let left = encode_m7(&input, 64, 0, SelectRule::LeftmostPos);
    assert_eq!(left.len(), 4097);
    assert_eq!(left[4096], Token::Match { pos: 0xfee, len: 3 });
    assert_eq!(decode_tokens(&left), input);
    for rule in [SelectRule::MinDist, SelectRule::MaxDist] {
        let toks = encode_m7(&input, 64, 0, rule);
        assert_eq!(toks.len(), 4097);
        assert!(toks[..4096].iter().enumerate().all(|(i, t)| *t == Token::Literal(input[i])));
        assert_eq!(toks[4096], Token::Match { pos: 0, len: 3 });
        let out = decode_tokens(&toks);
        assert_eq!(out.len(), input.len());
        assert_eq!(out[4097], 42);
        assert_ne!(out, input);
    }
}

#[test]
fn two_d_priority_falls_back_to_position_zero() {
    let input = distinct_windows_then_repeat();
    let toks = encode_2d_priority(&input, 64);
    assert_eq!(toks[4096], Token::Match { pos: 0, len: 3 });
    let toks2d = encode_2d(&input, 64);
    assert_eq!(toks2d[4096], Token::Match { pos: 0xfee, len: 3 });
    assert_eq!(decode_tokens(&toks2d), input);
}

#[test]
fn two_d_prefers_row_above() {
    // width 4: the second "ABC" (distance 4, one row up) beats the first
    // (distance 8, two rows up)
    let input = b"ABCxABCyABC";
    let toks = encode_2d(input, 4);
    assert_eq!(*toks.last().unwrap(), Token::Match { pos: 0xff2, len: 3 });
    let toks8 = encode_2d(input, 8);
    assert_eq!(*toks8.last().unwrap(), Token::Match { pos: 0xfee, len: 3 });
}

#[test]
fn two_d_priority_on_run() {
    assert_eq!(encode_2d_priority(b"AAAA", 2), aaaa_tokens());
    assert_eq!(encode_2d(b"AAAA", 2), aaaa_tokens());
}

#[test]
fn priority_table() {
    assert_eq!(priority_2d(0, 1, 8), 0);
    assert_eq!(priority_2d(1, 0, 8), 1);
    assert_eq!(priority_2d(1, -1, 8), 2);
    assert_eq!(priority_2d(1, 2, 8), 3);
    assert_eq!(priority_2d(2, 0, 8), 4);
    assert_eq!(priority_2d(1, 5, 8), 5);
    assert_eq!(priority_2d(2, 3, 8), 6);
    assert_eq!(priority_2d(0, 3, 8), 7);
    assert_eq!(priority_2d(3, 0, 8), 8);
    assert_eq!(priority_2d(4, -2, 8), 9);
    assert_eq!(priority_2d(7, 0, 8), 17);
}

#[test]
fn encode_tally_counts_matches_and_differences() {
    let mut t = EncodeTally::new();
    let img = striped_image();
    let p = frame_payload(&encode_rank1(&img));
    t.record(&p, &p);
    t.record(&[1, 2, 3], &[1, 9, 3, 4, 5]);
    assert_eq!(
        t,
        EncodeTally { files: 2, payload_match: 1, payload_diff_files: 1, payload_diff_total_bytes: 3 }
    );
    let mut u = EncodeTally::new();
    u.record(&[0], &[1]);
    t.merge(&u);
    assert_eq!(
        t,
        EncodeTally { files: 3, payload_match: 1, payload_diff_files: 2, payload_diff_total_bytes: 4 }
    );
}

#[test]
fn payload_diff_counts() {
    assert_eq!(payload_diff_count(&[], &[]), 0);
    assert_eq!(payload_diff_count(&[1, 2], &[1, 2, 3, 4]), 2);
    assert_eq!(payload_diff_count(&[5, 2, 7], &[1, 2, 3]), 2);
}

fn lf2_file(width: u16, height: u16, payload: &[u8]) -> Vec<u8> {
    let mut d = b"LEAF256\0".to_vec();
    d.extend_from_slice(&[0, 0, 0, 0]);
    d.extend_from_slice(&width.to_le_bytes());
    d.extend_from_slice(&height.to_le_bytes());
    d.extend_from_slice(&[0; 8]);
    d.extend_from_slice(payload);
    d
}

#[test]
fn encode_with_dispatches() {
    let img = striped_image();
    assert_eq!(encode_with(Encoder::Rank1, &img, 8), encode_rank1(&img));
    assert_eq!(encode_with(Encoder::TwoD, &img, 8), encode_2d(&img, 8));
    assert_eq!(encode_with(Encoder::TwoDPriority, &img, 8), encode_2d_priority(&img, 8));
    let m7 = Encoder::M7 { early_y: 1, rule: SelectRule::MinDist };
    assert_eq!(encode_with(m7, &img, 8), encode_m7(&img, 8, 1, SelectRule::MinDist));
}

#[test]
fn bench_file_records_reencoding() {
    let img = striped_image();
    let f = lf2_file(8, 6, &frame_payload(&encode_rank1(&img)));
    let mut t = EncodeTally::new();
    assert_eq!(bench_file(&f, Encoder::Rank1, &mut t), Ok(()));
    assert_eq!(t, EncodeTally { files: 1, payload_match: 1, payload_diff_files: 0, payload_diff_total_bytes: 0 });
    // a stream of literals only is not what the encoder writes
    let lits: Vec<Token> = img.iter().map(|&b| Token::Literal(b)).collect();
    let g = lf2_file(8, 6, &frame_payload(&lits));
    assert_eq!(bench_file(&g, Encoder::Rank1, &mut t), Ok(()));
    assert_eq!((t.files, t.payload_match, t.payload_diff_files), (2, 1, 1));
    let mut u = EncodeTally::new();
    assert_eq!(bench_file(&f[..0x10], Encoder::TwoD, &mut u), Err(GammaError::NotLf2));
    assert_eq!(bench_file(&lf2_file(9, 9, &[0x00, 0x41]), Encoder::TwoD, &mut u), Err(GammaError::Decode(DecodeError::TooShort)));
    assert_eq!(bench_file(&lf2_file(1, 1, &[0xff, 0x00]), Encoder::TwoD, &mut u), Err(GammaError::Decode(DecodeError::Malformed)));
    assert_eq!(u, EncodeTally::new());
    // an image without columns encodes to an empty payload
    let empty = lf2_file(0, 5, &[]);
    assert_eq!(bench_file(&empty, Encoder::TwoDPriority, &mut u), Ok(()));
    assert_eq!((u.files, u.payload_match), (1, 1));
}

#[test]
fn payload_comparisons() {
    assert_eq!(compare_payloads(&[1, 2], &[1, 2]), PayloadComparison::Same);
    assert_eq!(compare_payloads(&[], &[]), PayloadComparison::Same);
    assert_eq!(compare_payloads(&[1, 2], &[1, 2, 3]), PayloadComparison::PaddingOnly);
    assert_eq!(compare_payloads(&[], &[1]), PayloadComparison::PaddingOnly);
    assert_eq!(compare_payloads(&[1, 3, 5], &[1, 2]), PayloadComparison::DiffersAt(1));
}

#[test]
fn leaf_reframing() {
    // a trailing match past the image is dropped on decoding: padding only
    let toks = vec![Token::Literal(b'A'), Token::Match { pos: 0xfee, len: 3 }];
    let p = frame_payload(&toks);
    let d = decompress_to_tokens(&p, 1, 1).unwrap();
    assert_eq!(compare_payloads(&frame_payload(&d.tokens), &p), PayloadComparison::PaddingOnly);
    // a trailing literal changes the group's flag byte
    let lits = vec![Token::Literal(b'A'), Token::Literal(b'B')];
    let q = frame_payload(&lits);
    let e = decompress_to_tokens(&q, 1, 1).unwrap();
    assert_eq!(compare_payloads(&frame_payload(&e.tokens), &q), PayloadComparison::DiffersAt(0));
    let full = decompress_to_tokens(&p, 2, 2).unwrap();
    assert_eq!(compare_payloads(&frame_payload(&full.tokens), &p), PayloadComparison::Same);
}

#[test]
fn two_d_priority_without_width_on_literals() {
    let toks = encode_2d_priority(&[1, 2, 3], 0);
    assert_eq!(toks, vec![Token::Literal(1), Token::Literal(2), Token::Literal(3)]);
    assert_eq!(encode_with(Encoder::TwoDPriority, &[1, 2, 3], 0), toks);
}
