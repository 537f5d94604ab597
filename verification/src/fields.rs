//! Parsing of `None` / `Some(<n>)` cells of the analysis tables: the cell is
//! trimmed of white space first, and the number is read as a `u16`, an
//! optional leading `+` allowed.
use vstd::prelude::*;
use vstd::string::*;

verus! {

/// Whether `b[i]` is one of the one-byte white-space characters (tab, line
/// feed, vertical tab, form feed, carriage return, space).
pub open spec fn ascii_ws(x: u8) -> bool {
    x == 0x20 || (0x09 <= x && x <= 0x0d)
}

/// The length of the white-space character encoded at `i` in UTF-8, or 0:
/// besides the one-byte ones, U+0085, U+00A0, U+1680, U+2000 to U+200A,
/// U+2028, U+2029, U+202F, U+205F and U+3000.
pub open spec fn ws_len_at(b: Seq<u8>, i: int) -> int {
    if 0 <= i < b.len() && ascii_ws(b[i]) {
        1
    } else if 0 <= i && i + 1 < b.len() && b[i] == 0xc2 && (b[i + 1] == 0x85 || b[i + 1] == 0xa0) {
        2
    } else if 0 <= i && i + 2 < b.len() && ws3(b[i], b[i + 1], b[i + 2]) {
        3
    } else {
        0
    }
}

/// The three-byte encodings of white space.
pub open spec fn ws3(x: u8, y: u8, z: u8) -> bool {
    ||| x == 0xe1 && y == 0x9a && z == 0x80
    ||| x == 0xe2 && y == 0x80 && ((0x80 <= z && z <= 0x8a) || z == 0xa8 || z == 0xa9 || z == 0xaf)
    ||| x == 0xe2 && y == 0x81 && z == 0x9f
    ||| x == 0xe3 && y == 0x80 && z == 0x80
}

/// The length of the white-space character that ends at `j` (exclusive), or 0.
pub open spec fn ws_len_before(b: Seq<u8>, j: int) -> int {
    if 1 <= j <= b.len() && ascii_ws(b[j - 1]) {
        1
    } else if 2 <= j <= b.len() && b[j - 2] == 0xc2 && (b[j - 1] == 0x85 || b[j - 1] == 0xa0) {
        2
    } else if 3 <= j <= b.len() && ws3(b[j - 3], b[j - 2], b[j - 1]) {
        3
    } else {
        0
    }
}

/// Number of leading bytes that are white space.
pub open spec fn lead_ws(b: Seq<u8>) -> int
    decreases b.len(),
{
    let k = ws_len_at(b, 0);
    if k > 0 && k <= b.len() {
        k + lead_ws(b.skip(k))
    } else {
        0
    }
}

/// Number of trailing bytes that are white space.
pub open spec fn trail_ws(b: Seq<u8>) -> int
    decreases b.len(),
{
    let k = ws_len_before(b, b.len() as int);
    if k > 0 && k <= b.len() {
        k + trail_ws(b.take(b.len() - k))
    } else {
        0
    }
}

/// `b` without leading and trailing white space.
pub open spec fn trimmed(b: Seq<u8>) -> Seq<u8> {
    let a = b.skip(lead_ws(b));
    a.take(a.len() - trail_ws(a))
}

/// The value of a string of decimal digits.
pub open spec fn digits_value(d: Seq<u8>) -> nat
    decreases d.len(),
{
    if d.len() == 0 {
        0
    } else {
        digits_value(d.drop_last()) * 10 + (d.last() - 48) as nat
    }
}

/// Whether every byte is a decimal digit.
pub open spec fn all_digits(d: Seq<u8>) -> bool {
    forall|i: int| 0 <= i < d.len() ==> 48 <= #[trigger] d[i] <= 57
}

/// A `u16` written in decimal, with an optional leading `+`.
pub open spec fn parse_u16_spec(t: Seq<u8>) -> Option<u16> {
    let d = if t.len() >= 1 && t[0] == 43 {
        t.skip(1)
    } else {
        t
    };
    if d.len() > 0 && all_digits(d) && digits_value(d) <= 65535 {
        Some(digits_value(d) as u16)
    } else {
        None
    }
}

/// The bytes of `None`.
pub open spec fn none_bytes() -> Seq<u8> {
    seq![78u8, 111u8, 110u8, 101u8]
}

/// The bytes of `Some(`.
pub open spec fn some_open_bytes() -> Seq<u8> {
    seq![83u8, 111u8, 109u8, 101u8, 40u8]
}

/// What a trimmed cell holds: `None` for `None` or anything unreadable, the
/// number of `Some(<n>)`.
pub open spec fn opt_u16_spec(b: Seq<u8>) -> Option<u16> {
    let t = trimmed(b);
    if t == none_bytes() {
        None
    } else if t.len() >= 6 && t.take(5) == some_open_bytes() && t.last() == 41 {
        parse_u16_spec(t.subrange(5, t.len() - 1))
    } else {
        None
    }
}

/// `ws_len_at` on the bytes of a slice.
fn ws_at(b: &[u8], i: usize) -> (k: usize)
    requires
        i <= b@.len(),
    ensures
        k as int == ws_len_at(b@, i as int),
{
    let n = b.len();
    if i < n && (b[i] == 0x20 || (0x09 <= b[i] && b[i] <= 0x0d)) {
        1
    } else if i < n && n - i > 1 && b[i] == 0xc2 && (b[i + 1] == 0x85 || b[i + 1] == 0xa0) {
        2
    } else if i < n && n - i > 2 && is_ws3(b[i], b[i + 1], b[i + 2]) {
        3
    } else {
        0
    }
}

fn is_ws3(x: u8, y: u8, z: u8) -> (r: bool)
    ensures
        r == ws3(x, y, z),
{
    (x == 0xe1 && y == 0x9a && z == 0x80) || (x == 0xe2 && y == 0x80 && ((0x80 <= z && z <= 0x8a)
        || z == 0xa8 || z == 0xa9 || z == 0xaf)) || (x == 0xe2 && y == 0x81 && z == 0x9f) || (x
        == 0xe3 && y == 0x80 && z == 0x80)
}

/// `ws_len_before` on the bytes of a slice.
fn ws_before(b: &[u8], j: usize) -> (k: usize)
    requires
        j <= b@.len(),
    ensures
        k as int == ws_len_before(b@, j as int),
{
    if 1 <= j && (b[j - 1] == 0x20 || (0x09 <= b[j - 1] && b[j - 1] <= 0x0d)) {
        1
    } else if 2 <= j && b[j - 2] == 0xc2 && (b[j - 1] == 0x85 || b[j - 1] == 0xa0) {
        2
    } else if 3 <= j && is_ws3(b[j - 3], b[j - 2], b[j - 1]) {
        3
    } else {
        0
    }
}

/// The bounds of `b` without leading and trailing white space.
fn trim_bounds(b: &[u8]) -> (res: (usize, usize))
    ensures
        res.0 <= res.1 <= b@.len(),
        trimmed(b@) == b@.subrange(res.0 as int, res.1 as int),
{
    let n = b.len();
    let mut lo: usize = 0;
    let mut k = ws_at(b, 0);
    proof {
        assert(b@.skip(0) =~= b@);
    }
    while k > 0
        invariant
            n == b@.len(),
            lo <= n,
            k as int == ws_len_at(b@, lo as int),
            lead_ws(b@) == lo + lead_ws(b@.skip(lo as int)),
        decreases n - lo,
    {
        let ghost rest = b@.skip(lo as int);
        proof {
            assert(ws_len_at(rest, 0) == k);
            assert(rest.skip(k as int) =~= b@.skip(lo + k));
        }
        lo = lo + k;
        k = ws_at(b, lo);
    }
    proof {
        assert(ws_len_at(b@.skip(lo as int), 0) == 0);
    }
    let ghost a = b@.skip(lo as int);
    let mut hi: usize = n;
    let mut k2 = ws_before(b, n);
    proof {
        assert(a.take(a.len() as int) =~= a);
    }
    while k2 > 0 && hi - lo >= k2
        invariant
            n == b@.len(),
            lo <= hi <= n,
            a == b@.skip(lo as int),
            k2 as int == ws_len_before(b@, hi as int),
            trail_ws(a) == (n - hi) + trail_ws(a.take(hi - lo)),
        decreases hi,
    {
        let ghost part = a.take(hi - lo);
        proof {
            assert(ws_len_before(part, part.len() as int) == k2);
            assert(part.take(part.len() - k2) =~= a.take(hi - k2 - lo));
        }
        hi = hi - k2;
        k2 = ws_before(b, hi);
    }
    proof {
        let part = a.take(hi - lo);
        if ws_len_before(part, part.len() as int) > 0 {
            assert(ws_len_before(part, part.len() as int) == k2);
        }
        assert(trimmed(b@) =~= b@.subrange(lo as int, hi as int));
    }
    (lo, hi)
}

/// Reads `b[lo..hi]` as a `u16` in decimal with an optional leading `+`.
fn parse_u16_bytes(b: &[u8], lo: usize, hi: usize) -> (res: Option<u16>)
    requires
        lo <= hi <= b@.len(),
    ensures
        res == parse_u16_spec(b@.subrange(lo as int, hi as int)),
{
    let ghost t = b@.subrange(lo as int, hi as int);
    let mut i = lo;
    if i < hi && b[i] == 43 {
        i = i + 1;
    }
    let ghost d = b@.subrange(i as int, hi as int);
    proof {
        if t.len() >= 1 && t[0] == 43 {
            assert(t.skip(1) =~= d);
        } else {
            assert(t =~= d);
        }
    }
    if i == hi {
        return None;
    }
    let start = i;
    let mut v: u32 = 0;
    assert(parse_u16_spec(t) == (if d.len() > 0 && all_digits(d) && digits_value(d) <= 65535 {
        Some(digits_value(d) as u16)
    } else {
        None
    }));
    while i < hi
        invariant
            start <= i <= hi <= b@.len(),
            t == b@.subrange(lo as int, hi as int),
            d.len() > 0,
            parse_u16_spec(t) == (if all_digits(d) && digits_value(d) <= 65535 {
                Some(digits_value(d) as u16)
            } else {
                None::<u16>
            }),
            d == b@.subrange(start as int, hi as int),
            all_digits(b@.subrange(start as int, i as int)),
            v as nat == digits_value(b@.subrange(start as int, i as int)),
            v <= 65535,
        decreases hi - i,
    {
        let c = b[i];
        let ghost pre = b@.subrange(start as int, i as int);
        let ghost pre1 = b@.subrange(start as int, i + 1);
        proof {
            assert(pre1.drop_last() =~= pre);
            assert(pre1.last() == c);
        }
        if c < 48 || c > 57 {
            proof {
                assert(d[i - start] == c);
            }
            return None;
        }
        let nv = v * 10 + (c - 48) as u32;
        if nv > 65535 {
            proof {
                if all_digits(d) {
                    lemma_digits_grow(d, i + 1 - start);
                    assert(d.take(i + 1 - start) =~= pre1);
                }
            }
            return None;
        }
        v = nv;
        i = i + 1;
        proof {
            assert forall|j: int| 0 <= j < pre1.len() implies 48 <= #[trigger] pre1[j] <= 57 by {
                if j < pre.len() {
                    assert(pre1[j] == pre[j]);
                }
            }
        }
    }
    assert(b@.subrange(start as int, hi as int) =~= d);
    Some(v as u16)
}

/// Reads a `None` / `Some(<n>)` cell: white space around it is ignored, and
/// anything that is not `Some(<u16>)` reads as `None`.
pub fn parse_opt_u16(s: &str) -> (res: Option<u16>)
    ensures
        res == opt_u16_spec(s.spec_bytes()),
{
    let b = s.as_bytes();
    let (lo, hi) = trim_bounds(b);
    let ghost t = b@.subrange(lo as int, hi as int);
    let len = hi - lo;
    if len == 4 && b[lo] == 78 && b[lo + 1] == 111 && b[lo + 2] == 110 && b[lo + 3] == 101 {
        assert(t =~= none_bytes());
        return None;
    }
    assert(t != none_bytes()) by {
        if t == none_bytes() {
            assert(t[0] == b@[lo as int]);
            assert(t[1] == b@[lo + 1]);
            assert(t[2] == b@[lo + 2]);
            assert(t[3] == b@[lo + 3]);
        }
    }
    if !(len >= 6 && b[lo] == 83 && b[lo + 1] == 111 && b[lo + 2] == 109 && b[lo + 3] == 101 && b[lo
        + 4] == 40 && b[hi - 1] == 41) {
        proof {
            if t.len() >= 6 && t.take(5) == some_open_bytes() && t.last() == 41 {
                assert(t.take(5)[0] == b@[lo as int]);
                assert(t.take(5)[1] == b@[lo + 1]);
                assert(t.take(5)[2] == b@[lo + 2]);
                assert(t.take(5)[3] == b@[lo + 3]);
                assert(t.take(5)[4] == b@[lo + 4]);
            }
        }
        return None;
    }
    assert(t.take(5) =~= some_open_bytes());
    assert(t.subrange(5, t.len() - 1) =~= b@.subrange(lo + 5, hi - 1));
    parse_u16_bytes(b, lo + 5, hi - 1)
}

/// A digit string's value is at least that of any of its prefixes.
pub proof fn lemma_digits_grow(d: Seq<u8>, k: int)
    requires
        0 <= k <= d.len(),
        all_digits(d),
    ensures
        digits_value(d) >= digits_value(d.take(k)),
    decreases d.len() - k,
{
    if k < d.len() {
        lemma_digits_grow(d, k + 1);
        assert(d.take(k + 1).drop_last() =~= d.take(k));
        assert(48 <= d[k] <= 57);
    } else {
        assert(d.take(k) =~= d);
    }
}

/// The decimal digits of `n`, without leading zeros.
pub open spec fn decimal(n: nat) -> Seq<u8>
    decreases n,
{
    if n < 10 {
        seq![(48 + n) as u8]
    } else {
        decimal(n / 10).push((48 + n % 10) as u8)
    }
}

/// The text `{:?}` gives for an `Option<u16>`: `None`, or `Some(` the
/// decimal number `)`.
pub open spec fn debug_opt_u16(x: Option<u16>) -> Seq<u8> {
    match x {
        None => none_bytes(),
        Some(v) => some_open_bytes() + decimal(v as nat) + seq![41u8],
    }
}

/// The decimal digits of `n` are digits and read back as `n`.
pub proof fn lemma_decimal(n: nat)
    ensures
        decimal(n).len() >= 1,
        all_digits(decimal(n)),
        digits_value(decimal(n)) == n,
    decreases n,
{
    if n < 10 {
        assert(decimal(n).drop_last() =~= Seq::<u8>::empty());
        assert(decimal(n).last() as int == 48 + n);
        assert(digits_value(decimal(n).drop_last()) == 0);
    } else {
        lemma_decimal(n / 10);
        assert(decimal(n).drop_last() =~= decimal(n / 10));
        assert(0 <= n % 10 < 10);
        assert(decimal(n).last() as int == 48 + n % 10);
        vstd::arithmetic::div_mod::lemma_fundamental_div_mod(n as int, 10);
        assert(digits_value(decimal(n)) == digits_value(decimal(n / 10)) * 10 + n % 10);
        assert(n == (n / 10) * 10 + n % 10);
    }
}

/// A cell without white space at either end is its own trimmed form.
proof fn lemma_trimmed_plain(t: Seq<u8>)
    requires
        t.len() >= 1,
        ws_len_at(t, 0) == 0,
        ws_len_before(t, t.len() as int) == 0,
    ensures
        trimmed(t) == t,
{
    assert(t.skip(0) =~= t);
    assert(t.take(t.len() as int) =~= t);
}

/// Reading back the `{:?}` text of an `Option<u16>` gives the value.
pub proof fn lemma_debug_text_reads_back(x: Option<u16>)
    ensures
        opt_u16_spec(debug_opt_u16(x)) == x,
{
    let t = debug_opt_u16(x);
    match x {
        None => {
            lemma_trimmed_plain(t);
        },
        Some(v) => {
            let d = decimal(v as nat);
            lemma_decimal(v as nat);
            assert(t[0] == 83u8);
            assert(t[t.len() - 1] == 41u8);
            lemma_trimmed_plain(t);
            assert(t.len() != 4);
            assert(t != none_bytes());
            assert(t.take(5) =~= some_open_bytes());
            assert(t.subrange(5, t.len() - 1) =~= d);
            assert(48 <= d[0] <= 57);
        },
    }
}

} // verus!
