//! The LF2 payload framing: tokens in groups of eight, each group led by a
//! flag byte whose bit `7 - i` is set when token `i` of the group is a
//! literal.  Every byte of the payload is stored inverted (xor 0xff).  A
//! literal takes one byte; a match `(pos, len)` takes two:
//! `(len - 3) | (pos & 0xf) << 4` and `pos >> 4`.
use vstd::prelude::*;

use crate::model::{token_wf, Token};

verus! {

/// The stored bytes of one token (already inverted).
pub open spec fn token_bytes(t: Token) -> Seq<u8> {
    match t {
        Token::Literal(b) => seq![b ^ 0xff],
        Token::Match { pos, len } => {
            let p = (pos as usize) & 0x0fff;
            let l = (((len as usize) - 3) as usize) & 0x0f;
            seq![((l | ((p & 0x0f) << 4)) as u8) ^ 0xff, (((p >> 4) & 0xff) as u8) ^ 0xff]
        },
    }
}

/// The stored bytes of a group of tokens, without its flag byte.
pub open spec fn group_body(g: Seq<Token>) -> Seq<u8>
    decreases g.len(),
{
    if g.len() == 0 {
        Seq::empty()
    } else {
        group_body(g.drop_last()) + token_bytes(g.last())
    }
}

/// The flag bit of token `i` of a group.
pub open spec fn flag_bit(i: int) -> u8 {
    0x80u8 >> (i as u8)
}

/// The flag byte of a group before inversion: bit `7 - i` set for a literal
/// at index `i`.
pub open spec fn group_flag(g: Seq<Token>) -> u8
    decreases g.len(),
{
    if g.len() == 0 {
        0
    } else {
        let f = group_flag(g.drop_last());
        match g.last() {
            Token::Literal(_) => f | flag_bit(g.len() - 1),
            Token::Match { .. } => f,
        }
    }
}

/// A whole group as stored: inverted flag byte, then the tokens.
pub open spec fn group(g: Seq<Token>) -> Seq<u8> {
    seq![group_flag(g) ^ 0xff] + group_body(g)
}

/// The payload for a token sequence.
pub open spec fn frame(ts: Seq<Token>) -> Seq<u8>
    decreases ts.len(),
{
    if ts.len() == 0 {
        Seq::empty()
    } else if ts.len() <= 8 {
        group(ts)
    } else {
        group(ts.take(8)) + frame(ts.skip(8))
    }
}

/// Reading a payload from byte `i` on, with flag byte `flag` of which the
/// bits for tokens `0..bit` of the current group are used up (`bit == 8`:
/// the next byte is a flag byte).  Stops cleanly at the end of the bytes;
/// a match cut after its first byte makes the payload malformed.
pub open spec fn parse_from(bytes: Seq<u8>, i: int, flag: u8, bit: int) -> Option<Seq<Token>>
    decreases bytes.len() - i,
{
    if i < 0 || i >= bytes.len() {
        Some(Seq::empty())
    } else if bit >= 8 || bit < 0 {
        parse_from(bytes, i + 1, bytes[i] ^ 0xff, 0)
    } else if flag & flag_bit(bit) != 0 {
        match parse_from(bytes, i + 1, flag, bit + 1) {
            Some(rest) => Some(seq![Token::Literal(bytes[i] ^ 0xff)] + rest),
            None => None,
        }
    } else if i + 1 >= bytes.len() {
        None
    } else {
        match parse_from(bytes, i + 2, flag, bit + 1) {
            Some(rest) => Some(seq![match_token(bytes[i] ^ 0xff, bytes[i + 1] ^ 0xff)] + rest),
            None => None,
        }
    }
}

/// The match stored in the (inverted back) bytes `upper`, `lower`.
pub open spec fn match_token(upper: u8, lower: u8) -> Token {
    Token::Match {
        pos: ((upper >> 4u8) as u16) | ((lower as u16) << 4u16),
        len: ((upper & 0x0f) + 3) as u8,
    }
}

/// The tokens of a payload, or `None` when it ends inside a match.
pub open spec fn parse(bytes: Seq<u8>) -> Option<Seq<Token>> {
    parse_from(bytes, 0, 0, 8)
}

/// `p` in front of a parse result.
pub open spec fn prepend(p: Seq<Token>, r: Option<Seq<Token>>) -> Option<Seq<Token>> {
    match r {
        Some(rest) => Some(p + rest),
        None => None,
    }
}

/// Frames a token sequence into an LF2 payload.
pub fn frame_payload(tokens: &[Token]) -> (out: Vec<u8>)
    requires
        forall|i: int|
            0 <= i < tokens@.len() ==> (#[trigger] tokens@[i] matches Token::Match { len, .. }
                ==> len >= 3),
        3 * tokens@.len() <= usize::MAX,
    ensures
        out@ == frame(tokens@),
{
    let mut out: Vec<u8> = Vec::new();
    let mut i: usize = 0;
    let n = tokens.len();
    while i < n
        invariant
            n == tokens@.len(),
            3 * n <= usize::MAX,
            i <= n,
            i % 8 == 0 || i == n,
            out@ == frame(tokens@.take(i as int)),
            out@.len() <= 3 * i,
            forall|j: int|
                0 <= j < tokens@.len() ==> (#[trigger] tokens@[j] matches Token::Match { len, .. }
                    ==> len >= 3),
        decreases n - i,
    {
        let start = i;
        let flag_pos = out.len();
        out.push(0);
        let mut flag_byte: u8 = 0;
        let mut bits_used: usize = 0;
        while bits_used < 8 && i < n
            invariant
                n == tokens@.len(),
                3 * n <= usize::MAX,
                start % 8 == 0,
                start < n,
                i == start + bits_used,
                bits_used <= 8,
                i <= n,
                flag_pos == frame(tokens@.take(start as int)).len(),
                flag_pos <= 3 * start,
                out@ == frame(tokens@.take(start as int)) + seq![0u8] + group_body(
                    tokens@.subrange(start as int, i as int),
                ),
                out@.len() <= 3 * start + 1 + 2 * bits_used,
                flag_byte == group_flag(tokens@.subrange(start as int, i as int)),
                forall|j: int|
                    0 <= j < tokens@.len() ==> (#[trigger] tokens@[j] matches Token::Match {
                        len,
                        ..
                    } ==> len >= 3),
            decreases 8 - bits_used,
        {
            let ghost g = tokens@.subrange(start as int, i as int);
            let ghost g1 = tokens@.subrange(start as int, (i + 1) as int);
            proof {
                assert(g1.drop_last() =~= g);
                assert(g1.last() == tokens@[i as int]);
            }
            match tokens[i] {
                Token::Literal(b) => {
                    flag_byte = flag_byte | (0x80u8 >> (bits_used as u8));
                    out.push(b ^ 0xff);
                },
                Token::Match { pos, len } => {
                    let p = (pos as usize) & 0x0fff;
                    let l = ((len as usize) - 3) & 0x0f;
                    let upper = (l | ((p & 0x0f) << 4)) as u8;
                    let lower = ((p >> 4) & 0xff) as u8;
                    out.push(upper ^ 0xff);
                    out.push(lower ^ 0xff);
                },
            }
            proof {
                assert(out@ =~= frame(tokens@.take(start as int)) + seq![0u8] + group_body(g1));
            }
            bits_used += 1;
            i += 1;
        }
        let ghost g = tokens@.subrange(start as int, i as int);
        out.set(flag_pos, flag_byte ^ 0xff);
        proof {
            assert(out@ =~= frame(tokens@.take(start as int)) + group(g));
            assert(tokens@.take(i as int) =~= tokens@.take(start as int) + g);
            lemma_frame_append(tokens@.take(start as int), g);
        }
    }
    assert(tokens@.take(n as int) =~= tokens@);
    out
}

/// How one token is stored, in plain arithmetic: a literal `b` alone is the
/// flag byte 0x7f then `255 - b`; a match `(pos, len)` alone is the flag
/// byte 0xff, then `255 - ((len - 3) + 16 * (pos % 16))` and
/// `255 - pos / 16`.
pub proof fn lemma_frame_single(t: Token)
    requires
        token_wf(t),
    ensures
        t matches Token::Literal(b) ==> frame(seq![t]) == seq![0x7fu8, (255 - b) as u8],
        t matches Token::Match { pos, len } ==> frame(seq![t]) == seq![
            0xffu8,
            (255 - ((len - 3) + 16 * (pos % 16))) as u8,
            (255 - pos / 16) as u8,
        ],
{
    let g = seq![t];
    assert(g.drop_last() =~= Seq::<Token>::empty());
    assert(g.last() == t);
    assert(group_body(g.drop_last()) =~= Seq::<u8>::empty());
    assert(Seq::<u8>::empty() + token_bytes(t) =~= token_bytes(t));
    assert(group_body(g) == token_bytes(t));
    assert(frame(g) == group(g));
    assert(group_flag(g.drop_last()) == 0);
    match t {
        Token::Literal(b) => {
            assert(flag_bit(0) == 0x80u8) by (bit_vector);
            assert((0u8 | 0x80u8) ^ 0xffu8 == 0x7fu8) by (bit_vector);
            assert(b ^ 0xffu8 == (255 - b) as u8) by (bit_vector);
            assert(0u8 | 0x80u8 == 0x80u8) by (bit_vector);
            assert(flag_bit(g.len() - 1) == 0x80u8);
            assert(group_flag(g) == 0x80u8);
            assert(group(g) =~= seq![0x7fu8, (255 - b) as u8]);
        },
        Token::Match { pos, len } => {
            let p: usize = (pos as usize) & 0x0fff;
            let l: usize = (((len as usize) - 3) as usize) & 0x0f;
            assert(p == pos) by (bit_vector)
                requires
                    pos < 4096,
                    p == (pos as usize) & 0x0fff,
            ;
            assert(l == len - 3) by (bit_vector)
                requires
                    3 <= len <= 18,
                    l == (((len as usize) - 3) as usize) & 0x0f,
            ;
            assert(((l | ((p & 0x0f) << 4)) as u8) ^ 0xff == (255 - (l + 16 * (p % 16))) as u8) by (bit_vector)
                requires
                    l < 16,
                    p < 4096,
            ;
            assert((((p >> 4) & 0xff) as u8) ^ 0xff == (255 - p / 16) as u8) by (bit_vector)
                requires
                    p < 4096,
            ;
            assert(0u8 ^ 0xffu8 == 0xffu8) by (bit_vector);
            assert(group_flag(g) == 0);
            assert(group(g) =~= seq![
                0xffu8,
                (255 - ((len - 3) + 16 * (pos % 16))) as u8,
                (255 - pos / 16) as u8,
            ]);
        },
    }
}

/// Framing a whole number of groups and then one more group appends that group.
pub proof fn lemma_frame_append(a: Seq<Token>, g: Seq<Token>)
    requires
        a.len() % 8 == 0,
        1 <= g.len() <= 8,
    ensures
        frame(a + g) == frame(a) + group(g),
    decreases a.len(),
{
    if a.len() == 0 {
        assert(a + g =~= g);
        assert(frame(a) =~= Seq::<u8>::empty());
        assert(frame(a) + group(g) =~= group(g));
    } else {
        assert(a.len() >= 8);
        let a2 = a.skip(8);
        assert((a + g).take(8) =~= a.take(8));
        assert((a + g).skip(8) =~= a2 + g);
        lemma_frame_append(a2, g);
        if a.len() == 8 {
            assert(a.take(8) =~= a);
            assert(frame(a2) =~= Seq::<u8>::empty());
            assert(frame(a2) + group(g) =~= group(g));
        }
        assert(frame(a + g) =~= frame(a) + group(g));
    }
}

/// Framing splits at any group boundary: when `a` is a whole number of
/// groups, the payload of `a` followed by `b` is the payload of `a`
/// followed by the payload of `b`.
pub proof fn lemma_frame_concat(a: Seq<Token>, b: Seq<Token>)
    requires
        a.len() % 8 == 0,
    ensures
        frame(a + b) == frame(a) + frame(b),
    decreases a.len(),
{
    if a.len() == 0 {
        assert(a + b =~= b);
        assert(frame(a) + frame(b) =~= frame(b));
    } else {
        let a2 = a.skip(8);
        assert((a + b).take(8) =~= a.take(8));
        assert((a + b).skip(8) =~= a2 + b);
        lemma_frame_concat(a2, b);
        if a.len() == 8 {
            assert(a.take(8) =~= a);
            assert(a2.len() == 0);
            assert(frame(a2) =~= Seq::<u8>::empty());
            assert(a2 + b =~= b);
            if b.len() == 0 {
                assert(a + b =~= a);
                assert(frame(a) + frame(b) =~= frame(a));
            } else {
                assert(frame(a + b) =~= group(a) + frame(b));
            }
        } else {
            assert(frame(a + b) =~= group(a.take(8)) + frame(a2 + b));
            assert(frame(a + b) =~= frame(a) + frame(b));
        }
    }
}

/// Reads the tokens of an LF2 payload; `None` when the payload ends inside
/// a match.
pub fn parse_payload(bytes: &[u8]) -> (res: Option<Vec<Token>>)
    ensures
        match res {
            Some(ts) => parse(bytes@) == Some(ts@),
            None => parse(bytes@) is None,
        },
{
    let n = bytes.len();
    let mut tokens: Vec<Token> = Vec::new();
    let mut i: usize = 0;
    let mut flag: u8 = 0;
    let mut bit: usize = 8;
    while i < n
        invariant
            n == bytes@.len(),
            i <= n,
            bit <= 8,
            parse(bytes@) == prepend(tokens@, parse_from(bytes@, i as int, flag, bit as int)),
        decreases n - i,
    {
        let ghost before = parse_from(bytes@, i as int, flag, bit as int);
        if bit >= 8 {
            flag = bytes[i] ^ 0xff;
            i += 1;
            bit = 0;
        } else if flag & (0x80u8 >> (bit as u8)) != 0 {
            let t = Token::Literal(bytes[i] ^ 0xff);
            proof {
                let after = parse_from(bytes@, i + 1, flag, bit + 1);
                match after {
                    Some(rest) => {
                        assert(tokens@ + (seq![t] + rest) =~= tokens@.push(t) + rest);
                    },
                    None => {},
                }
            }
            tokens.push(t);
            i += 1;
            bit += 1;
        } else if i + 1 >= n {
            return None;
        } else {
            let upper = bytes[i] ^ 0xff;
            let lower = bytes[i + 1] ^ 0xff;
            assert(upper & 0x0f <= 15) by (bit_vector);
            let t = Token::Match {
                pos: ((upper >> 4u8) as u16) | ((lower as u16) << 4u16),
                len: (upper & 0x0f) + 3,
            };
            proof {
                assert(t == match_token(upper, lower));
                let after = parse_from(bytes@, i + 2, flag, bit + 1);
                match after {
                    Some(rest) => {
                        assert(tokens@ + (seq![t] + rest) =~= tokens@.push(t) + rest);
                    },
                    None => {},
                }
            }
            tokens.push(t);
            i += 2;
            bit += 1;
        }
    }
    assert(tokens@ + Seq::<Token>::empty() =~= tokens@);
    Some(tokens)
}

/// Flag-bit arithmetic on bytes.
pub proof fn lemma_flag_bits(f: u8, a: u8, k: u8)
    requires
        a < 8,
        k < 8,
    ensures
        a != k ==> ((f | (0x80u8 >> a)) & (0x80u8 >> k)) == (f & (0x80u8 >> k)),
        ((f | (0x80u8 >> a)) & (0x80u8 >> a)) != 0,
        (0u8 & (0x80u8 >> k)) == 0,
{
    assert(a != k ==> ((f | (0x80u8 >> a)) & (0x80u8 >> k)) == (f & (0x80u8 >> k))) by (bit_vector)
        requires
            a < 8,
            k < 8,
    ;
    assert(((f | (0x80u8 >> a)) & (0x80u8 >> a)) != 0) by (bit_vector)
        requires
            a < 8,
    ;
    assert((0u8 & (0x80u8 >> k)) == 0) by (bit_vector);
}

/// Bit `7 - k` of a group's flag is set exactly for the literals.
pub proof fn lemma_group_flag(g: Seq<Token>, k: int)
    requires
        g.len() <= 8,
        0 <= k < 8,
    ensures
        k < g.len() ==> ((group_flag(g) & flag_bit(k) != 0) <==> g[k] is Literal),
        k >= g.len() ==> group_flag(g) & flag_bit(k) == 0,
    decreases g.len(),
{
    if g.len() == 0 {
        lemma_flag_bits(0, 0, k as u8);
    } else {
        let n = g.len() - 1;
        lemma_group_flag(g.drop_last(), k);
        lemma_flag_bits(group_flag(g.drop_last()), n as u8, k as u8);
        if k < n {
            assert(g.drop_last()[k] == g[k]);
        }
    }
}

/// Inverting twice gives the byte back.
pub proof fn lemma_xor_ff(b: u8)
    ensures
        (b ^ 0xff) ^ 0xff == b,
{
    assert((b ^ 0xff) ^ 0xff == b) by (bit_vector);
}

/// A stored match reads back as itself.
pub proof fn lemma_match_roundtrip(pos: u16, len: u8)
    requires
        pos < 4096,
        3 <= len <= 18,
    ensures
        match_token(token_bytes(Token::Match { pos, len })[0] ^ 0xff, token_bytes(Token::Match { pos, len })[1] ^ 0xff)
            == (Token::Match { pos, len }),
{
    let p = (pos as usize) & 0x0fff;
    let l = (((len as usize) - 3) as usize) & 0x0f;
    let upper = (l | ((p & 0x0f) << 4)) as u8;
    let lower = ((p >> 4) & 0xff) as u8;
    lemma_xor_ff(upper);
    lemma_xor_ff(lower);
    assert(l < 16) by (bit_vector)
        requires
            l == (((len as usize) - 3) as usize) & 0x0f,
    ;
    assert(((upper >> 4u8) as u16) | ((lower as u16) << 4u16) == pos) by (bit_vector)
        requires
            pos < 4096,
            p == (pos as usize) & 0x0fff,
            upper == (l | ((p & 0x0f) << 4)) as u8,
            lower == ((p >> 4) & 0xff) as u8,
            l < 16,
    ;
    assert(((upper & 0x0f) + 3) as u8 == len) by (bit_vector)
        requires
            3 <= len <= 18,
            l == (((len as usize) - 3) as usize) & 0x0f,
            upper == (l | ((p & 0x0f) << 4)) as u8,
    ;
}

/// The tokens of one group are read back from its stored bytes.
proof fn lemma_parse_group(bytes: Seq<u8>, i: int, g: Seq<Token>, j: int)
    requires
        1 <= g.len() <= 8,
        forall|k: int| 0 <= k < g.len() ==> token_wf(#[trigger] g[k]),
        0 <= i,
        i + group(g).len() <= bytes.len(),
        bytes.subrange(i, i + group(g).len()) == group(g),
        0 <= j <= g.len(),
    ensures
        parse_from(bytes, i + 1 + group_body(g.take(j)).len(), group_flag(g), j) == prepend(
            g.skip(j),
            parse_from(bytes, i + group(g).len(), group_flag(g), g.len() as int),
        ),
    decreases g.len() - j,
{
    let gf = group_flag(g);
    let end = parse_from(bytes, i + group(g).len(), gf, g.len() as int);
    if j == g.len() {
        assert(g.take(j) =~= g);
        match end {
            Some(rest) => {
                assert(g.skip(j) + rest =~= rest);
            },
            None => {},
        }
    } else {
        lemma_parse_group(bytes, i, g, j + 1);
        let ip = i + 1 + group_body(g.take(j)).len();
        let t = g[j];
        assert(g.take(j + 1).drop_last() =~= g.take(j));
        assert(g.take(j + 1).last() == t);
        let tb = token_bytes(t);
        // the stored bytes of token j sit at ip
        lemma_group_body_prefix(g, j + 1);
        assert(group(g) =~= seq![gf ^ 0xff] + group_body(g));
        assert(bytes[ip] == tb[0]) by {
            assert(group_body(g)[ip - i - 1] == group_body(g.take(j + 1))[ip - i - 1]);
            assert(group(g)[ip - i] == group_body(g)[ip - i - 1]);
            assert(bytes.subrange(i, i + group(g).len())[ip - i] == bytes[ip]);
        }
        lemma_group_flag(g, j);
        match t {
            Token::Literal(b) => {
                lemma_xor_ff(b);
                assert(parse_from(bytes, ip, gf, j) == prepend(
                    seq![Token::Literal(b)],
                    parse_from(bytes, ip + 1, gf, j + 1),
                ));
                match end {
                    Some(rest) => {
                        assert(seq![Token::Literal(b)] + (g.skip(j + 1) + rest) =~= g.skip(j)
                            + rest);
                    },
                    None => {},
                }
            },
            Token::Match { pos, len } => {
                assert(bytes[ip + 1] == tb[1]) by {
                    assert(group_body(g)[ip + 1 - i - 1] == group_body(g.take(j + 1))[ip + 1 - i
                        - 1]);
                    assert(group(g)[ip + 1 - i] == group_body(g)[ip + 1 - i - 1]);
                    assert(bytes.subrange(i, i + group(g).len())[ip + 1 - i] == bytes[ip + 1]);
                }
                lemma_match_roundtrip(pos, len);
                assert(parse_from(bytes, ip, gf, j) == prepend(
                    seq![t],
                    parse_from(bytes, ip + 2, gf, j + 1),
                ));
                match end {
                    Some(rest) => {
                        assert(seq![t] + (g.skip(j + 1) + rest) =~= g.skip(j) + rest);
                    },
                    None => {},
                }
            },
        }
    }
}

/// The body of a group starts with the body of each of its prefixes.
pub proof fn lemma_group_body_prefix(g: Seq<Token>, j: int)
    requires
        0 <= j <= g.len(),
    ensures
        group_body(g.take(j)).len() <= group_body(g).len(),
        group_body(g).subrange(0, group_body(g.take(j)).len() as int) == group_body(g.take(j)),
    decreases g.len() - j,
{
    if j == g.len() {
        assert(g.take(j) =~= g);
        assert(group_body(g).subrange(0, group_body(g).len() as int) =~= group_body(g));
    } else {
        lemma_group_body_prefix(g, j + 1);
        assert(g.take(j + 1).drop_last() =~= g.take(j));
        let a = group_body(g.take(j));
        let b = group_body(g.take(j + 1));
        assert(b == a + token_bytes(g.take(j + 1).last()));
        assert(group_body(g).subrange(0, a.len() as int) =~= a) by {
            assert forall|x: int| 0 <= x < a.len() implies group_body(g).subrange(
                0,
                a.len() as int,
            )[x] == a[x] by {
                assert(group_body(g).subrange(0, b.len() as int)[x] == b[x]);
            }
        }
    }
}

/// Reading back a framed sequence of well-formed tokens, from any byte
/// position at which the frame starts.
proof fn lemma_parse_frame_from(bytes: Seq<u8>, i: int, flag: u8, ts: Seq<Token>)
    requires
        forall|k: int| 0 <= k < ts.len() ==> token_wf(#[trigger] ts[k]),
        0 <= i <= bytes.len(),
        bytes.skip(i) == frame(ts),
    ensures
        parse_from(bytes, i, flag, 8) == Some(ts),
    decreases ts.len(),
{
    if ts.len() == 0 {
        assert(bytes.skip(i).len() == 0);
    } else {
        let g = if ts.len() <= 8 {
            ts
        } else {
            ts.take(8)
        };
        let rest = if ts.len() <= 8 {
            Seq::<Token>::empty()
        } else {
            ts.skip(8)
        };
        assert(ts =~= g + rest);
        assert(frame(ts) =~= group(g) + frame(rest)) by {
            if ts.len() <= 8 {
                assert(frame(rest) =~= Seq::<u8>::empty());
            }
        }
        let gl = group(g).len() as int;
        assert(bytes.subrange(i, i + gl) =~= group(g)) by {
            assert forall|x: int| 0 <= x < gl implies bytes.subrange(i, i + gl)[x] == group(g)[x] by {
                assert(bytes.skip(i)[x] == bytes[i + x]);
            }
        }
        assert forall|k: int| 0 <= k < g.len() implies token_wf(#[trigger] g[k]) by {
            assert(g[k] == ts[k]);
        }
        assert(bytes[i] == gf_byte(g)) by {
            assert(bytes.skip(i)[0] == bytes[i]);
        }
        lemma_xor_ff(group_flag(g));
        assert(g.take(0) =~= Seq::<Token>::empty());
        lemma_parse_group(bytes, i, g, 0);
        assert(g.skip(0) =~= g);
        let next = i + gl;
        if rest.len() == 0 {
            assert(next == bytes.len());
            assert(g + Seq::<Token>::empty() =~= g);
        } else {
            assert(g.len() == 8);
            assert(bytes.skip(next) =~= frame(rest)) by {
                assert forall|x: int| 0 <= x < bytes.skip(next).len() implies bytes.skip(next)[x]
                    == frame(rest)[x] by {
                    assert(bytes.skip(i)[gl + x] == bytes[next + x]);
                }
            }
            assert forall|k: int| 0 <= k < rest.len() implies token_wf(#[trigger] rest[k]) by {
                assert(rest[k] == ts[k + 8]);
            }
            lemma_parse_frame_from(bytes, next, group_flag(g), rest);
        }
    }
}

/// The inverted flag byte of a group.
pub open spec fn gf_byte(g: Seq<Token>) -> u8 {
    group_flag(g) ^ 0xff
}

/// Framing loses nothing: reading back the payload of well-formed tokens
/// gives the same tokens.
pub proof fn lemma_parse_frame(ts: Seq<Token>)
    requires
        forall|k: int| 0 <= k < ts.len() ==> token_wf(#[trigger] ts[k]),
    ensures
        parse(frame(ts)) == Some(ts),
{
    let bytes = frame(ts);
    assert(bytes.skip(0) =~= bytes);
    lemma_parse_frame_from(bytes, 0, 0, ts);
}

} // verus!
