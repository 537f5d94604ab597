//! Decimal and hexadecimal rendering of numbers into `String`s, as the
//! reports print them.
use vstd::prelude::*;
use vstd::string::*;

verus! {

/// The text of one digit (0 to 15) in lower-case hexadecimal.
pub open spec fn digit_text(d: int) -> Seq<char> {
    if d == 0 {
        "0"@
    } else if d == 1 {
        "1"@
    } else if d == 2 {
        "2"@
    } else if d == 3 {
        "3"@
    } else if d == 4 {
        "4"@
    } else if d == 5 {
        "5"@
    } else if d == 6 {
        "6"@
    } else if d == 7 {
        "7"@
    } else if d == 8 {
        "8"@
    } else if d == 9 {
        "9"@
    } else if d == 10 {
        "a"@
    } else if d == 11 {
        "b"@
    } else if d == 12 {
        "c"@
    } else if d == 13 {
        "d"@
    } else if d == 14 {
        "e"@
    } else {
        "f"@
    }
}

/// `n` in decimal, without leading zeros.
pub open spec fn dec(n: nat) -> Seq<char>
    decreases n,
{
    if n < 10 {
        digit_text(n as int)
    } else {
        dec(n / 10) + digit_text((n % 10) as int)
    }
}

/// `n` in lower-case hexadecimal, padded with zeros to at least `w` digits.
pub open spec fn hex(n: nat, w: nat) -> Seq<char>
    decreases n, w,
{
    if n < 16 && w <= 1 {
        digit_text(n as int)
    } else {
        hex(
            n / 16,
            if w > 0 {
                (w - 1) as nat
            } else {
                0
            },
        ) + digit_text((n % 16) as int)
    }
}

/// The text of one digit (0 to 15) in upper-case hexadecimal.
pub open spec fn digit_text_upper(d: int) -> Seq<char> {
    if d == 10 {
        "A"@
    } else if d == 11 {
        "B"@
    } else if d == 12 {
        "C"@
    } else if d == 13 {
        "D"@
    } else if d == 14 {
        "E"@
    } else if d == 15 {
        "F"@
    } else {
        digit_text(d)
    }
}

/// `n` in upper-case hexadecimal, padded with zeros to at least `w` digits.
pub open spec fn hex_upper(n: nat, w: nat) -> Seq<char>
    decreases n, w,
{
    if n < 16 && w <= 1 {
        digit_text_upper(n as int)
    } else {
        hex_upper(
            n / 16,
            if w > 0 {
                (w - 1) as nat
            } else {
                0
            },
        ) + digit_text_upper((n % 16) as int)
    }
}

/// `n` in decimal, padded with zeros to at least `w` digits.
pub open spec fn dec_pad(n: nat, w: nat) -> Seq<char>
    decreases n, w,
{
    if n < 10 && w <= 1 {
        digit_text(n as int)
    } else {
        dec_pad(
            n / 10,
            if w > 0 {
                (w - 1) as nat
            } else {
                0
            },
        ) + digit_text((n % 10) as int)
    }
}

/// The value of a digit character: `0`-`9`, then `a`-`f` or `A`-`F` as 10
/// to 15.
pub open spec fn char_digit(c: char) -> int {
    let x = c as int;
    if 48 <= x <= 57 {
        x - 48
    } else if 97 <= x <= 102 {
        x - 87
    } else {
        x - 55
    }
}

/// The value of a string of digits in base `base`.
pub open spec fn digits_value(t: Seq<char>, base: int) -> int
    decreases t.len(),
{
    if t.len() == 0 {
        0
    } else {
        digits_value(t.drop_last(), base) * base + char_digit(t.last())
    }
}

/// Each digit is one character: `0`-`9` for 0 to 9, then `a`-`f` (or
/// `A`-`F` in upper case) for 10 to 15, so it reads back as itself.
pub proof fn lemma_digit_codes(d: int)
    requires
        0 <= d < 16,
    ensures
        digit_text(d).len() == 1,
        digit_text_upper(d).len() == 1,
        d < 10 ==> digit_text(d)[0] as int == 48 + d && digit_text_upper(d) == digit_text(d),
        d >= 10 ==> digit_text(d)[0] as int == 87 + d && digit_text_upper(d)[0] as int == 55 + d,
        char_digit(digit_text(d)[0]) == d,
        char_digit(digit_text_upper(d)[0]) == d,
{
    reveal_strlit("0");
    reveal_strlit("1");
    reveal_strlit("2");
    reveal_strlit("3");
    reveal_strlit("4");
    reveal_strlit("5");
    reveal_strlit("6");
    reveal_strlit("7");
    reveal_strlit("8");
    reveal_strlit("9");
    reveal_strlit("a");
    reveal_strlit("b");
    reveal_strlit("c");
    reveal_strlit("d");
    reveal_strlit("e");
    reveal_strlit("f");
    reveal_strlit("A");
    reveal_strlit("B");
    reveal_strlit("C");
    reveal_strlit("D");
    reveal_strlit("E");
    reveal_strlit("F");
}

/// Appending one digit multiplies the value by the base and adds the digit.
proof fn lemma_value_push(t: Seq<char>, u: Seq<char>, base: int)
    requires
        u.len() == 1,
    ensures
        digits_value(t + u, base) == digits_value(t, base) * base + char_digit(u[0]),
{
    assert((t + u).drop_last() =~= t);
    assert((t + u).last() == u[0]);
}

/// Decimal text reads back as the number: `dec(n)` is at least one digit
/// and its value in base 10 is `n`; `dec_pad(n, w)` likewise, with at least
/// `w` digits.
pub proof fn lemma_dec_reads_back(n: nat, w: nat)
    ensures
        dec(n).len() >= 1,
        digits_value(dec(n), 10) == n,
        dec_pad(n, w).len() >= w,
        digits_value(dec_pad(n, w), 10) == n,
    decreases n, w,
{
    lemma_digit_codes((n % 10) as int);
    if n < 10 {
        lemma_value_push(Seq::empty(), digit_text(n as int), 10);
        assert(Seq::<char>::empty() + digit_text(n as int) =~= digit_text(n as int));
    } else {
        lemma_dec_reads_back(n / 10, if w > 0 { (w - 1) as nat } else { 0 });
        lemma_value_push(dec(n / 10), digit_text((n % 10) as int), 10);
    }
    if n < 10 && w <= 1 {
    } else {
        let w2: nat = if w > 0 { (w - 1) as nat } else { 0 };
        lemma_dec_reads_back(n / 10, w2);
        lemma_value_push(dec_pad(n / 10, w2), digit_text((n % 10) as int), 10);
    }
}

/// Hexadecimal text reads back as the number, in lower and upper case,
/// with at least `w` digits.
pub proof fn lemma_hex_reads_back(n: nat, w: nat)
    ensures
        hex(n, w).len() >= w,
        hex(n, w).len() >= 1,
        digits_value(hex(n, w), 16) == n,
        hex_upper(n, w).len() >= w,
        digits_value(hex_upper(n, w), 16) == n,
    decreases n, w,
{
    lemma_digit_codes((n % 16) as int);
    if n < 16 && w <= 1 {
        lemma_value_push(Seq::empty(), digit_text(n as int), 16);
        assert(Seq::<char>::empty() + digit_text(n as int) =~= digit_text(n as int));
        lemma_value_push(Seq::empty(), digit_text_upper(n as int), 16);
        assert(Seq::<char>::empty() + digit_text_upper(n as int) =~= digit_text_upper(n as int));
    } else {
        let w2: nat = if w > 0 { (w - 1) as nat } else { 0 };
        lemma_hex_reads_back(n / 16, w2);
        lemma_value_push(hex(n / 16, w2), digit_text((n % 16) as int), 16);
        lemma_value_push(hex_upper(n / 16, w2), digit_text_upper((n % 16) as int), 16);
    }
}

/// Appends one character with `String::push`; the contract claims that
/// the string's characters afterwards are those before, then `c`.
#[verifier::external_body]
pub(crate) fn push_char(s: &mut String, c: char)
    ensures
        final(s)@ == old(s)@.push(c),
{
    s.push(c);
}

/// Appends one hexadecimal digit.
pub fn push_digit(s: &mut String, d: u64)
    requires
        d < 16,
    ensures
        final(s)@ == old(s)@ + digit_text(d as int),
{
    if d == 0 {
        s.append("0");
    } else if d == 1 {
        s.append("1");
    } else if d == 2 {
        s.append("2");
    } else if d == 3 {
        s.append("3");
    } else if d == 4 {
        s.append("4");
    } else if d == 5 {
        s.append("5");
    } else if d == 6 {
        s.append("6");
    } else if d == 7 {
        s.append("7");
    } else if d == 8 {
        s.append("8");
    } else if d == 9 {
        s.append("9");
    } else if d == 10 {
        s.append("a");
    } else if d == 11 {
        s.append("b");
    } else if d == 12 {
        s.append("c");
    } else if d == 13 {
        s.append("d");
    } else if d == 14 {
        s.append("e");
    } else {
        s.append("f");
    }
}

/// Appends `n` in decimal.
pub fn push_dec(s: &mut String, n: u64)
    ensures
        final(s)@ == old(s)@ + dec(n as nat),
    decreases n,
{
    let ghost s0 = s@;
    if n >= 10 {
        push_dec(s, n / 10);
    }
    push_digit(s, n % 10);
    proof {
        if n >= 10 {
            assert(s0 + dec((n / 10) as nat) + digit_text((n % 10) as int) =~= s0 + dec(n as nat));
        }
    }
}

/// Appends `n` in lower-case hexadecimal, padded to at least `w` digits.
pub fn push_hex(s: &mut String, n: u64, w: u64)
    ensures
        final(s)@ == old(s)@ + hex(n as nat, w as nat),
    decreases n, w,
{
    let ghost s0 = s@;
    if n < 16 && w <= 1 {
        push_digit(s, n);
    } else {
        let w2 = if w > 0 {
            w - 1
        } else {
            0
        };
        push_hex(s, n / 16, w2);
        push_digit(s, n % 16);
        proof {
            assert(s0 + hex((n / 16) as nat, w2 as nat) + digit_text((n % 16) as int) =~= s0 + hex(
                n as nat,
                w as nat,
            ));
        }
    }
}

/// Appends one upper-case hexadecimal digit.
pub fn push_digit_upper(s: &mut String, d: u64)
    requires
        d < 16,
    ensures
        final(s)@ == old(s)@ + digit_text_upper(d as int),
{
    if d == 10 {
        s.append("A");
    } else if d == 11 {
        s.append("B");
    } else if d == 12 {
        s.append("C");
    } else if d == 13 {
        s.append("D");
    } else if d == 14 {
        s.append("E");
    } else if d == 15 {
        s.append("F");
    } else {
        push_digit(s, d);
    }
}

/// Appends `n` in upper-case hexadecimal, padded to at least `w` digits.
pub fn push_hex_upper(s: &mut String, n: u64, w: u64)
    ensures
        final(s)@ == old(s)@ + hex_upper(n as nat, w as nat),
    decreases n, w,
{
    let ghost s0 = s@;
    if n < 16 && w <= 1 {
        push_digit_upper(s, n);
    } else {
        let w2 = if w > 0 {
            w - 1
        } else {
            0
        };
        push_hex_upper(s, n / 16, w2);
        push_digit_upper(s, n % 16);
        proof {
            assert(s0 + hex_upper((n / 16) as nat, w2 as nat) + digit_text_upper((n % 16) as int)
                =~= s0 + hex_upper(n as nat, w as nat));
        }
    }
}

/// Appends `n` in decimal, padded to at least `w` digits.
pub fn push_dec_pad(s: &mut String, n: u64, w: u64)
    ensures
        final(s)@ == old(s)@ + dec_pad(n as nat, w as nat),
    decreases n, w,
{
    let ghost s0 = s@;
    if n < 10 && w <= 1 {
        push_digit(s, n);
    } else {
        let w2 = if w > 0 {
            w - 1
        } else {
            0
        };
        push_dec_pad(s, n / 10, w2);
        push_digit(s, n % 10);
        proof {
            assert(s0 + dec_pad((n / 10) as nat, w2 as nat) + digit_text((n % 10) as int) =~= s0
                + dec_pad(n as nat, w as nat));
        }
    }
}

} // verus!
