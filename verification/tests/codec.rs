use lf2_lzss::decode::{decode_tokens, decompress_to_tokens, DecodeError};
use lf2_lzss::frame::{frame_payload, parse_payload};
use lf2_lzss::header::{
    check_magic, parse_header, parse_header_unchecked, parse_header_with_payload, parse_lf2,
    read_le16, Header, HeaderError,
};
use lf2_lzss::model::Token;
use lf2_lzss::ring::{
    check_match, check_match_with_writeback, copy_match, dist_back, max_match_at_pos, new_ring,
    push_byte, ring_at,
};

fn lit_and_match() -> Vec<Token> {
    vec![Token::Literal(0x41), Token::Match { pos: 0xfee, len: 3 }]
}

/// An LF2 file: header, `cc` palette entries, then `payload`.
fn lf2_file(width: u16, height: u16, cc: u8, payload: &[u8]) -> Vec<u8> {
    let mut d = b"LEAF256\0".to_vec();
    d.extend_from_slice(&[0, 0, 0, 0]);
    d.extend_from_slice(&width.to_le_bytes());
    d.extend_from_slice(&height.to_le_bytes());
    d.extend_from_slice(&[0, 0, 0, 0, 0, 0, 0, 0]);
    d[0x16] = cc;
    for _ in 0..(cc as usize) * 3 {
        d.push(0);
    }
    d.extend_from_slice(payload);
    d
}

#[test]
fn frame_payload_inverts_flag_and_bytes() {
    let p = frame_payload(&lit_and_match());
    assert_eq!(p, vec![0x7f, 0xbe, 0x1f, 0x01]);
}

#[test]
fn frame_payload_starts_new_group_after_eight() {
    let toks: Vec<Token> = (0..9u8).map(Token::Literal).collect();
    let p = frame_payload(&toks);
    assert_eq!(p.len(), 1 + 8 + 1 + 1);
    assert_eq!(p[0], 0x00);
    assert_eq!(p[9], 0x7f);
    assert_eq!(p[10], 8 ^ 0xff);
}

#[test]
fn frame_payload_empty() {
    assert!(frame_payload(&[]).is_empty());
}

#[test]
fn parse_payload_reads_back_framed_tokens() {
    let toks = lit_and_match();
    assert_eq!(parse_payload(&frame_payload(&toks)), Some(toks));
}

#[test]
fn parse_payload_rejects_cut_match() {
    // flag 0x00 after inversion: a match, but only one of its two bytes
    assert_eq!(parse_payload(&[0xff, 0x00]), None);
}

#[test]
fn parse_payload_stops_at_end() {
    // all-literal flag, then a single literal
    assert_eq!(parse_payload(&[0x00, 0xbe]), Some(vec![Token::Literal(0x41)]));
}

#[test]
fn decode_tokens_overlapping_match() {
    assert_eq!(decode_tokens(&lit_and_match()), b"AAAA".to_vec());
}

#[test]
fn decode_tokens_match_from_initial_spaces() {
    let toks = vec![Token::Match { pos: 0, len: 3 }];
    assert_eq!(decode_tokens(&toks), vec![0x20, 0x20, 0x20]);
}

#[test]
fn decompress_to_tokens_ok() {
    let payload = frame_payload(&lit_and_match());
    let d = decompress_to_tokens(&payload, 2, 2).unwrap();
    assert_eq!(d.tokens, lit_and_match());
    assert_eq!(d.ring_input, b"AAAA".to_vec());
}

#[test]
fn decompress_to_tokens_cuts_to_image() {
    let payload = frame_payload(&lit_and_match());
    let d = decompress_to_tokens(&payload, 3, 1).unwrap();
    assert_eq!(d.ring_input, b"AAA".to_vec());
    assert_eq!(d.tokens, lit_and_match());
    let d1 = decompress_to_tokens(&payload, 1, 1).unwrap();
    assert_eq!(d1.ring_input, b"A".to_vec());
    assert_eq!(d1.tokens, vec![Token::Literal(0x41)]);
}

#[test]
fn decompress_to_tokens_too_short() {
    let payload = frame_payload(&lit_and_match());
    assert_eq!(decompress_to_tokens(&payload, 3, 2).err(), Some(DecodeError::TooShort));
}

#[test]
fn decompress_to_tokens_malformed() {
    assert_eq!(decompress_to_tokens(&[0xff, 0x00], 1, 1).err(), Some(DecodeError::Malformed));
}

#[test]
fn header_fields() {
    let f = lf2_file(640, 480, 2, &[1, 2, 3]);
    assert!(check_magic(&f));
    assert_eq!(read_le16(&f, 12), 640);
    assert_eq!(
        parse_header(&f),
        Ok(Header { width: 640, height: 480, color_count: 2, payload_start: 0x18 + 6 })
    );
    assert_eq!(parse_lf2(&f), Some((640, 480, 0x1e)));
    assert_eq!(parse_header_unchecked(&f), Ok((640, 480, 0x1e)));
    assert_eq!(parse_header_with_payload(&f).map(|h| h.payload_start), Ok(0x1e));
}

#[test]
fn header_too_small() {
    assert_eq!(parse_header(&[0u8; 0x17]), Err(HeaderError::TooSmall));
    assert_eq!(parse_header_with_payload(b"LEAF256\0"), Err(HeaderError::TooSmall));
    assert_eq!(parse_lf2(&[0u8; 4]), None);
    assert_eq!(parse_header_unchecked(&[0u8; 4]), Err(HeaderError::BadMagic));
}

#[test]
fn header_bad_magic() {
    let mut f = lf2_file(1, 1, 0, &[0]);
    f[3] = b'X';
    assert!(!check_magic(&f));
    assert_eq!(parse_header(&f), Err(HeaderError::BadMagic));
    assert_eq!(parse_header_with_payload(&f), Err(HeaderError::BadMagic));
    assert_eq!(parse_header_unchecked(&f), Err(HeaderError::BadMagic));
}

#[test]
fn header_palette_past_end() {
    let mut f = lf2_file(1, 1, 0, &[]);
    f[0x16] = 3;
    assert_eq!(parse_header(&f), Err(HeaderError::PayloadPastEof));
    assert_eq!(parse_lf2(&f), None);
    assert_eq!(parse_header_unchecked(&f), Ok((1, 1, 0x18 + 9)));
}

#[test]
fn header_no_payload() {
    let f = lf2_file(1, 1, 1, &[]);
    assert_eq!(parse_header_with_payload(&f), Err(HeaderError::NoPayload));
    assert_eq!(parse_header(&f).map(|h| h.payload_start), Ok(0x1b));
}

#[test]
fn ring_starts_with_spaces() {
    let ring = new_ring();
    assert_eq!(ring.len(), 4096);
    assert!(ring.iter().all(|&b| b == 0x20));
    assert_eq!(ring_at(&ring, 4096 + 5), 0x20);
}

#[test]
fn ring_push_and_copy() {
    let mut ring = new_ring();
    let mut r = 0xfff;
    push_byte(&mut ring, &mut r, 7);
    assert_eq!(r, 0);
    assert_eq!(ring[0xfff], 7);
    copy_match(&mut ring, &mut r, 0xfff, 3);
    assert_eq!(r, 3);
    assert_eq!(&ring[0..3], &[7, 7, 7]);
}

#[test]
fn dist_back_wraps() {
    assert_eq!(dist_back(5, 0xffe), 7);
    assert_eq!(dist_back(0x100, 0x100), 0);
    assert_eq!(dist_back(0x110, 0x100), 0x10);
}

#[test]
fn check_match_with_and_without_writeback() {
    let mut ring = new_ring();
    let mut r = 0xfee;
    push_byte(&mut ring, &mut r, b'A');
    let input = b"AAAA";
    // the match from 0xfee runs into the bytes it writes itself
    assert!(check_match_with_writeback(&ring, r, 0xfee, input, 1, 3));
    assert!(check_match(&ring, r, 0xfee, input, 1, 3));
    assert!(!check_match(&ring, r, 0xfee, input, 1, 4));
    assert!(!check_match(&ring, r, 0x000, input, 1, 3));
    assert_eq!(max_match_at_pos(&ring, r, 0xfee, input, 1), 3);
    assert_eq!(max_match_at_pos(&ring, r, 0x000, input, 1), 0);
}

#[test]
fn frame_payload_splits_at_group_boundary() {
    let a: Vec<Token> = (0..8u8).map(Token::Literal).collect();
    let b = lit_and_match();
    let joined: Vec<Token> = a.iter().chain(b.iter()).copied().collect();
    let mut expected = frame_payload(&a);
    expected.extend(frame_payload(&b));
    assert_eq!(frame_payload(&joined), expected);
    let sixteen: Vec<Token> = (0..16u8).map(Token::Literal).collect();
    let mut two = frame_payload(&sixteen[..8]);
    two.extend(frame_payload(&sixteen[8..]));
    assert_eq!(frame_payload(&sixteen), two);
}

#[test]
fn longest_match_decides_every_length() {
    let mut ring = new_ring();
    let mut r = 0xfeeusize;
    for &b in b"ABCDE" {
        push_byte(&mut ring, &mut r, b);
    }
    // "ABCDX": the match from "ABCDE" holds for 3 and 4 bytes only
    let input = b"ABCDXYZ";
    let l = max_match_at_pos(&ring, r, 0xfee, input, 0);
    assert_eq!(l, 4);
    for len in 3..=7 {
        assert_eq!(check_match(&ring, r, 0xfee, input, 0, len), l >= len, "len {}", len);
    }
    // shorter than 3 counts as no match
    assert_eq!(max_match_at_pos(&ring, r, 0xfee, b"ABX", 0), 0);
    assert!(check_match(&ring, r, 0xfee, b"ABX", 0, 2));
}

#[test]
fn writeback_check_follows_the_copy() {
    let mut ring = new_ring();
    let mut r = 0xfeeusize;
    push_byte(&mut ring, &mut r, b'Q');
    // copying 5 bytes from the 'Q' just written repeats it
    let input = b"QQQQQ";
    assert!(check_match_with_writeback(&ring, r, 0xfee, input, 0, 5));
    let mut copy = ring.clone();
    let mut h = r;
    copy_match(&mut copy, &mut h, 0xfee, 5);
    assert_eq!(&copy[0xfef..0xff4], &input[..]);
    // the same match against other bytes fails, and so does the copy
    assert!(!check_match_with_writeback(&ring, r, 0xfee, b"QQRQQ", 0, 5));
}
