//! Text renderings of tokens and of ring rows, as the reports print them.
use vstd::prelude::*;
use vstd::string::*;

use crate::model::Token;
use crate::text::{
    dec, dec_pad, hex, hex_upper, push_char, push_dec, push_dec_pad, push_hex, push_hex_upper,
};

verus! {

/// `Literal(0x<b>)` or `Match{pos=0x<pos>, len=<len>}`, hexadecimal in lower
/// case, the byte on two digits, the position on at least three.
pub open spec fn uni_text(t: Token) -> Seq<char> {
    match t {
        Token::Literal(b) => "Literal(0x"@ + hex(b as nat, 2) + ")"@,
        Token::Match { pos, len } => "Match{pos=0x"@ + hex(pos as nat, 3) + ", len="@ + dec(
            len as nat,
        ) + "}"@,
    }
}

/// Renders a token for the divergence reports.
pub fn fmt_uni(t: Token) -> (s: String)
    ensures
        s@ == uni_text(t),
{
    let mut s = String::new();
    match t {
        Token::Literal(b) => {
            s.append("Literal(0x");
            push_hex(&mut s, b as u64, 2);
            s.append(")");
        },
        Token::Match { pos, len } => {
            s.append("Match{pos=0x");
            push_hex(&mut s, pos as u64, 3);
            s.append(", len=");
            push_dec(&mut s, len as u64);
            s.append("}");
        },
    }
    s
}

/// `L(<b>)` or `M(<pos>,<len>)`, all in decimal.
pub open spec fn tok_text(t: Token) -> Seq<char> {
    match t {
        Token::Literal(b) => "L("@ + dec(b as nat) + ")"@,
        Token::Match { pos, len } => "M("@ + dec(pos as nat) + ","@ + dec(len as nat) + ")"@,
    }
}

/// Renders a token for the per-token variant report.
pub fn fmt_tok(t: &Token) -> (s: String)
    ensures
        s@ == tok_text(*t),
{
    let mut s = String::new();
    match t {
        Token::Literal(b) => {
            s.append("L(");
            push_dec(&mut s, *b as u64);
            s.append(")");
        },
        Token::Match { pos, len } => {
            s.append("M(");
            push_dec(&mut s, *pos as u64);
            s.append(",");
            push_dec(&mut s, *len as u64);
            s.append(")");
        },
    }
    s
}

/// `L(<b>)` with the byte on two upper-case hex digits, or `M(p=<pos>,l=<len>)`
/// with the position on four upper-case hex digits and the length on two
/// decimal digits.
pub open spec fn token_str_text(t: Token) -> Seq<char> {
    match t {
        Token::Literal(b) => "L("@ + hex_upper(b as nat, 2) + ")"@,
        Token::Match { pos, len } => "M(p="@ + hex_upper(pos as nat, 4) + ",l="@ + dec_pad(
            len as nat,
            2,
        ) + ")"@,
    }
}

/// Renders a token for the side-by-side inspection of two streams.
pub fn token_str(t: &Token) -> (s: String)
    ensures
        s@ == token_str_text(*t),
{
    let mut s = String::new();
    match t {
        Token::Literal(b) => {
            s.append("L(");
            push_hex_upper(&mut s, *b as u64, 2);
            s.append(")");
        },
        Token::Match { pos, len } => {
            s.append("M(p=");
            push_hex_upper(&mut s, *pos as u64, 4);
            s.append(",l=");
            push_dec_pad(&mut s, *len as u64, 2);
            s.append(")");
        },
    }
    s
}

/// `(end)`, `Lit(0x<b>)` or `Match{pos:0x<pos>, len:<len>}`.
pub open spec fn format_token_text(t: Option<Token>) -> Seq<char> {
    match t {
        None => "(end)"@,
        Some(Token::Literal(b)) => "Lit(0x"@ + hex(b as nat, 2) + ")"@,
        Some(Token::Match { pos, len }) => "Match{pos:0x"@ + hex(pos as nat, 3) + ", len:"@ + dec(
            len as nat,
        ) + "}"@,
    }
}

/// Renders a token, or the end of a stream, for the decision-tree report.
pub fn format_token(t: Option<&Token>) -> (s: String)
    ensures
        s@ == format_token_text(
            match t {
                Some(x) => Some(*x),
                None => None,
            },
        ),
{
    let mut s = String::new();
    match t {
        None => {
            s.append("(end)");
        },
        Some(Token::Literal(b)) => {
            s.append("Lit(0x");
            push_hex(&mut s, *b as u64, 2);
            s.append(")");
        },
        Some(Token::Match { pos, len }) => {
            s.append("Match{pos:0x");
            push_hex(&mut s, *pos as u64, 3);
            s.append(", len:");
            push_dec(&mut s, *len as u64);
            s.append("}");
        },
    }
    s
}

/// How a byte shows in the character column: itself when printable ASCII or
/// a space, else `.`.
pub open spec fn shown_char(b: u8) -> char {
    if b == 0x20 || (0x21 <= b && b <= 0x7e) {
        b as char
    } else {
        '.'
    }
}

/// A printable ASCII byte (space to `~`) shows as itself and nothing else
/// does: every other byte shows as `.`.
pub proof fn lemma_shown_char(b: u8)
    ensures
        0x20 <= b <= 0x7e ==> shown_char(b) as int == b as int,
        (b < 0x20 || b > 0x7e) ==> shown_char(b) == '.',
{
}

fn shown(b: u8) -> (c: char)
    ensures
        c == shown_char(b),
{
    if b == 0x20 || (0x21 <= b && b <= 0x7e) {
        b as char
    } else {
        '.'
    }
}

/// How many of the 16 bytes from `base` lie in a buffer of `len` bytes.
pub open spec fn row_len(len: int, base: int) -> int {
    if base >= len {
        0
    } else if len - base < 16 {
        len - base
    } else {
        16
    }
}

/// The bytes `buf[base..base + m]` in two-digit hex, separated by spaces.
pub open spec fn hex_join(buf: Seq<u8>, base: int, m: int) -> Seq<char>
    decreases m,
{
    if m <= 0 {
        Seq::empty()
    } else if m == 1 {
        hex(buf[base] as nat, 2)
    } else {
        hex_join(buf, base, m - 1) + " "@ + hex(buf[base + m - 1] as nat, 2)
    }
}

/// The first `k` bytes from `base` as characters, a space past the end.
pub open spec fn shown_cells(buf: Seq<u8>, base: int, k: int) -> Seq<char> {
    Seq::new(
        k as nat,
        |c: int|
            if base + c < buf.len() {
                shown_char(buf[base + c])
            } else {
                ' '
            },
    )
}

/// A ring row: the hex of the bytes of `buf[base..base + 16]` that exist,
/// then ` | `, then the 16 characters.
pub open spec fn ring_row_text(buf: Seq<u8>, base: int) -> Seq<char> {
    hex_join(buf, base, row_len(buf.len() as int, base)) + " | "@ + shown_cells(buf, base, 16)
}

/// Renders 16 bytes of a ring from `row_base`: hex, then characters.
pub fn ring_row_str(text_buf: &[u8], row_base: usize) -> (s: String)
    requires
        row_base + 16 <= usize::MAX,
    ensures
        s@ == ring_row_text(text_buf@, row_base as int),
{
    let n = text_buf.len();
    let m: usize = if row_base >= n {
        0
    } else if n - row_base < 16 {
        n - row_base
    } else {
        16
    };
    let mut hexs = String::new();
    let mut col: usize = 0;
    while col < m
        invariant
            m as int == row_len(n as int, row_base as int),
            n == text_buf@.len(),
            col <= m,
            hexs@ == hex_join(text_buf@, row_base as int, col as int),
        decreases m - col,
    {
        if col > 0 {
            hexs.append(" ");
        }
        push_hex(&mut hexs, text_buf[row_base + col] as u64, 2);
        col += 1;
    }
    let mut asc = String::new();
    let mut c: usize = 0;
    while c < 16
        invariant
            n == text_buf@.len(),
            row_base + 16 <= usize::MAX,
            c <= 16,
            asc@ == shown_cells(text_buf@, row_base as int, c as int),
        decreases 16 - c,
    {
        let idx = row_base + c;
        if idx >= n {
            push_char(&mut asc, ' ');
        } else {
            push_char(&mut asc, shown(text_buf[idx]));
        }
        c += 1;
        assert(asc@ =~= shown_cells(text_buf@, row_base as int, c as int));
    }
    hexs.append(" | ");
    hexs.append(asc.as_str());
    hexs
}

/// How many of the 18 lookahead bytes from `r` lie in a buffer of `len`
/// bytes (none when `r` is negative).
pub open spec fn lookahead_len(len: int, r: int) -> int {
    if r < 0 || r >= len {
        0
    } else if len - r < 18 {
        len - r
    } else {
        18
    }
}

/// The bytes `buf[base..base + m]`, each in two-digit hex followed by a space.
pub open spec fn hex_cells(buf: Seq<u8>, base: int, m: int) -> Seq<char>
    decreases m,
{
    if m <= 0 {
        Seq::empty()
    } else {
        hex_cells(buf, base, m - 1) + hex(buf[base + m - 1] as nat, 2) + " "@
    }
}

/// The lookahead line: `text_buf[r..r+F] = `, the hex cells, `| `, the
/// characters.
pub open spec fn lookahead_text(buf: Seq<u8>, r: int) -> Seq<char> {
    let m = lookahead_len(buf.len() as int, r);
    "text_buf[r..r+F] = "@ + hex_cells(buf, r, m) + "| "@ + shown_cells(buf, r, m)
}

/// Renders the lookahead, the 18 bytes from `r` that lie in the buffer.
pub fn dump_lookahead(text_buf: &[u8], r: i32) -> (s: String)
    ensures
        s@ == lookahead_text(text_buf@, r as int),
{
    let n = text_buf.len();
    let m: usize = if r < 0 {
        0
    } else {
        let ru = r as usize;
        if ru >= n {
            0
        } else if n - ru < 18 {
            n - ru
        } else {
            18
        }
    };
    let base: usize = if r < 0 {
        0
    } else {
        r as usize
    };
    let mut hexs = String::new();
    let mut asc = String::new();
    let mut i: usize = 0;
    while i < m
        invariant
            n == text_buf@.len(),
            m as int == lookahead_len(n as int, r as int),
            m > 0 ==> base as int == r as int,
            i <= m,
            hexs@ == hex_cells(text_buf@, r as int, i as int),
            asc@ == shown_cells(text_buf@, r as int, i as int),
        decreases m - i,
    {
        let b = text_buf[base + i];
        push_hex(&mut hexs, b as u64, 2);
        hexs.append(" ");
        push_char(&mut asc, shown(b));
        i += 1;
        assert(asc@ =~= shown_cells(text_buf@, r as int, i as int));
    }
    let mut s = String::new();
    s.append("text_buf[r..r+F] = ");
    s.append(hexs.as_str());
    s.append("| ");
    s.append(asc.as_str());
    s
}

/// Whether ring row `q` (of 16 bytes) is one of those to show: it is within
/// one row of a position of interest, and below row 256.
pub open spec fn row_wanted(rows: Seq<usize>, q: int) -> bool {
    0 <= q < 256 && exists|i: int|
        0 <= i < rows.len() && #[trigger] rows[i] / 16 - 1 <= q <= rows[i] / 16 + 1
}

/// One shown row: a `...` line first when rows were skipped since the last
/// shown one, then `    ring[0x<base>] = <row>`.
pub open spec fn row_block(buf: Seq<u8>, rows: Seq<usize>, q: int) -> Seq<char> {
    let gap = if (exists|p: int| 0 <= p < q - 1 && #[trigger] row_wanted(rows, p)) && !row_wanted(rows, q - 1) {
        "    ...\n"@
    } else {
        Seq::empty()
    };
    gap + "    ring[0x"@ + hex((q * 16) as nat, 3) + "] = "@ + ring_row_text(buf, q * 16) + "\n"@
}

/// The shown rows among `0..n`, in order.
pub open spec fn rows_text(buf: Seq<u8>, rows: Seq<usize>, n: int) -> Seq<char>
    decreases n,
{
    if n <= 0 {
        Seq::empty()
    } else if row_wanted(rows, n - 1) {
        rows_text(buf, rows, n - 1) + row_block(buf, rows, n - 1)
    } else {
        rows_text(buf, rows, n - 1)
    }
}

/// Renders the ring rows around the positions of interest, in increasing
/// order, with `...` where rows are skipped.
pub fn dump_ring_rows(text_buf: &[u8], rows_of_interest: &[usize]) -> (s: String)
    requires
        forall|i: int| 0 <= i < rows_of_interest@.len() ==> #[trigger] rows_of_interest@[i] < 0x8000_0000,
    ensures
        s@ == rows_text(text_buf@, rows_of_interest@, 256),
{
    let mut wanted: Vec<bool> = Vec::new();
    let mut q: usize = 0;
    while q < 256
        invariant
            q <= 256,
            wanted@.len() == q,
            forall|j: int| 0 <= j < q ==> #[trigger] wanted@[j] == row_wanted(rows_of_interest@, j),
        decreases 256 - q,
    {
        let mut found = false;
        let mut i: usize = 0;
        while i < rows_of_interest.len()
            invariant
                q < 256,
                i <= rows_of_interest@.len(),
                found <==> exists|k: int|
                    0 <= k < i && #[trigger] rows_of_interest@[k] / 16 - 1 <= q <= rows_of_interest@[k]
                        / 16 + 1,
            decreases rows_of_interest@.len() - i,
        {
            let row = rows_of_interest[i] / 16;
            if row <= q + 1 && q <= row + 1 {
                found = true;
            }
            i += 1;
        }
        wanted.push(found);
        q += 1;
    }
    let mut s = String::new();
    let mut seen = false;
    let mut q: usize = 0;
    while q < 256
        invariant
            q <= 256,
            wanted@.len() == 256,
            forall|j: int| 0 <= j < 256 ==> #[trigger] wanted@[j] == row_wanted(rows_of_interest@, j),
            seen <==> exists|p: int| 0 <= p < q && #[trigger] row_wanted(rows_of_interest@, p),
            s@ == rows_text(text_buf@, rows_of_interest@, q as int),
        decreases 256 - q,
    {
        if wanted[q] {
            let ghost s0 = s@;
            if seen && (q == 0 || !wanted[q - 1]) {
                proof {
                    let p = choose|p: int| 0 <= p < q && #[trigger] row_wanted(rows_of_interest@, p);
                    assert(p < q - 1);
                }
                s.append("    ...\n");
            } else {
                proof {
                    if exists|p: int| 0 <= p < q - 1 && #[trigger] row_wanted(rows_of_interest@, p) {
                        let p = choose|p: int| 0 <= p < q - 1 && #[trigger] row_wanted(rows_of_interest@, p);
                        assert(p < q);
                    }
                }
            }
            s.append("    ring[0x");
            push_hex(&mut s, (q * 16) as u64, 3);
            s.append("] = ");
            let line = ring_row_str(text_buf, q * 16);
            s.append(line.as_str());
            s.append("\n");
            proof {
                assert(s@ =~= s0 + row_block(text_buf@, rows_of_interest@, q as int));
            }
            seen = true;
        }
        q += 1;
    }
    s
}

/// The bytes `buf[p..p + m]`, each as a space and two hex digits, or ` --`
/// past the end of the buffer.
pub open spec fn side_cells(buf: Seq<u8>, p: int, m: int) -> Seq<char>
    decreases m,
{
    if m <= 0 {
        Seq::empty()
    } else {
        side_cells(buf, p, m - 1) + if p + m - 1 < buf.len() {
            " "@ + hex(buf[p + m - 1] as nat, 2)
        } else {
            " --"@
        }
    }
}

/// For positions `p..p + m`: ` ··` where both buffers hold the same byte,
/// ` XX` elsewhere (a differing byte, or past the end of either).
pub open spec fn diff_marks(a: Seq<u8>, b: Seq<u8>, p: int, m: int) -> Seq<char>
    decreases m,
{
    if m <= 0 {
        Seq::empty()
    } else {
        diff_marks(a, b, p, m - 1) + if p + m - 1 < a.len() && p + m - 1 < b.len() && a[p + m
            - 1] == b[p + m - 1] {
            " \u{b7}\u{b7}"@
        } else {
            " XX"@
        }
    }
}

/// The three lines for positions `p..e`: the original's bytes, the
/// re-encoding's bytes, and where they differ.
pub open spec fn parallel_block(a: Seq<u8>, b: Seq<u8>, p: int, e: int) -> Seq<char> {
    "  0x"@ + hex(p as nat, 4) + " O:"@ + side_cells(a, p, e - p) + "\n"@ + "         R:"@
        + side_cells(b, p, e - p) + "\n"@ + "         d:"@ + diff_marks(a, b, p, e - p) + "\n"@
}

/// The side-by-side dump of positions `p..end`, sixteen per block.
pub open spec fn parallel_text(a: Seq<u8>, b: Seq<u8>, p: int, end: int) -> Seq<char>
    decreases end - p,
{
    if p >= end {
        Seq::empty()
    } else {
        let e = if end - p < 16 {
            end
        } else {
            p + 16
        };
        parallel_block(a, b, p, e) + parallel_text(a, b, e, end)
    }
}

/// Appends the cells of `buf[p..e]`.
fn push_side_cells(s: &mut String, buf: &[u8], p: usize, e: usize)
    requires
        p <= e,
    ensures
        final(s)@ == old(s)@ + side_cells(buf@, p as int, e - p),
{
    let ghost s0 = s@;
    let mut i: usize = p;
    while i < e
        invariant
            p <= i <= e,
            s@ == s0 + side_cells(buf@, p as int, i - p),
        decreases e - i,
    {
        if i < buf.len() {
            s.append(" ");
            push_hex(s, buf[i] as u64, 2);
        } else {
            s.append(" --");
        }
        i += 1;
        assert(s@ =~= s0 + side_cells(buf@, p as int, i - p));
    }
}

/// Appends the difference marks of positions `p..e`.
fn push_diff_marks(s: &mut String, a: &[u8], b: &[u8], p: usize, e: usize)
    requires
        p <= e,
    ensures
        final(s)@ == old(s)@ + diff_marks(a@, b@, p as int, e - p),
{
    let ghost s0 = s@;
    let mut i: usize = p;
    while i < e
        invariant
            p <= i <= e,
            s@ == s0 + diff_marks(a@, b@, p as int, i - p),
        decreases e - i,
    {
        if i < a.len() && i < b.len() && a[i] == b[i] {
            s.append(" \u{b7}\u{b7}");
        } else {
            s.append(" XX");
        }
        i += 1;
        assert(s@ =~= s0 + diff_marks(a@, b@, p as int, i - p));
    }
}

/// Appends the three lines for positions `p..e`.
fn push_parallel_block(s: &mut String, a: &[u8], b: &[u8], p: usize, e: usize)
    requires
        p <= e,
    ensures
        final(s)@ == old(s)@ + parallel_block(a@, b@, p as int, e as int),
{
    let ghost s0 = s@;
    s.append("  0x");
    push_hex(s, p as u64, 4);
    s.append(" O:");
    push_side_cells(s, a, p, e);
    s.append("\n");
    s.append("         R:");
    push_side_cells(s, b, p, e);
    s.append("\n");
    s.append("         d:");
    push_diff_marks(s, a, b, p, e);
    s.append("\n");
    assert(s@ =~= s0 + parallel_block(a@, b@, p as int, e as int));
}

/// One block more of the side-by-side dump.
proof fn lemma_parallel_step(a: Seq<u8>, b: Seq<u8>, x: Seq<char>, p: int, e: int, end: int, total: Seq<char>)
    requires
        p < end,
        e == (if end - p < 16 {
            end
        } else {
            p + 16
        }),
        x + parallel_text(a, b, p, end) == total,
    ensures
        (x + parallel_block(a, b, p, e)) + parallel_text(a, b, e, end) == total,
{
    assert(parallel_text(a, b, p, end) == parallel_block(a, b, p, e) + parallel_text(a, b, e, end));
    assert((x + parallel_block(a, b, p, e)) + parallel_text(a, b, e, end) =~= x + parallel_text(a, b, p, end));
}

/// Renders the original and re-encoded bytes of positions `start..end` side
/// by side, sixteen per block, with a line marking where they differ.
pub fn dump_parallel(orig: &[u8], reenc: &[u8], start: usize, end: usize) -> (s: String)
    ensures
        s@ == parallel_text(orig@, reenc@, start as int, end as int),
{
    let ghost total = parallel_text(orig@, reenc@, start as int, end as int);
    let mut s = String::new();
    let mut p = start;
    assert(s@ + parallel_text(orig@, reenc@, p as int, end as int) =~= total);
    while p < end
        invariant
            s@ + parallel_text(orig@, reenc@, p as int, end as int) == total,
        decreases end - p,
    {
        let e = if end - p < 16 {
            end
        } else {
            p + 16
        };
        let ghost s0 = s@;
        push_parallel_block(&mut s, orig, reenc, p, e);
        proof {
            lemma_parallel_step(orig@, reenc@, s0, p as int, e as int, end as int, total);
        }
        p = e;
    }
    assert(s@ =~= s@ + parallel_text(orig@, reenc@, p as int, end as int));
    s
}

} // verus!
