//! Decimal and hexadecimal text: digit characters, the textual form of a
//! number, and the numeric value of a digit string.

use vstd::prelude::*;

verus! {

/// The decimal digit character for `d` (`d < 10`).
pub open spec fn dec_char(d: nat) -> char {
    if d == 0 {
        '0'
    } else if d == 1 {
        '1'
    } else if d == 2 {
        '2'
    } else if d == 3 {
        '3'
    } else if d == 4 {
        '4'
    } else if d == 5 {
        '5'
    } else if d == 6 {
        '6'
    } else if d == 7 {
        '7'
    } else if d == 8 {
        '8'
    } else {
        '9'
    }
}

/// The lower-case hexadecimal digit character for `d` (`d < 16`).
pub open spec fn hex_char(d: nat) -> char {
    if d < 10 {
        dec_char(d)
    } else if d == 10 {
        'a'
    } else if d == 11 {
        'b'
    } else if d == 12 {
        'c'
    } else if d == 13 {
        'd'
    } else if d == 14 {
        'e'
    } else {
        'f'
    }
}

pub open spec fn is_dec_digit(c: char) -> bool {
    '0' <= c && c <= '9'
}

/// The numeric value of a decimal digit character.
pub open spec fn dec_val(c: char) -> nat {
    (c as nat - '0' as nat) as nat
}

/// Hexadecimal digits, in either letter case.
pub open spec fn is_hex_digit(c: char) -> bool {
    is_dec_digit(c) || ('a' <= c && c <= 'f') || ('A' <= c && c <= 'F')
}

/// The numeric value of a hexadecimal digit character.
pub open spec fn hex_val(c: char) -> nat {
    if is_dec_digit(c) {
        dec_val(c)
    } else if 'a' <= c && c <= 'f' {
        (c as nat - 'a' as nat + 10) as nat
    } else {
        (c as nat - 'A' as nat + 10) as nat
    }
}

/// The decimal text of `n`, most significant digit first, no leading zeros.
pub open spec fn dec_text(n: nat) -> Seq<char>
    decreases n,
{
    if n < 10 {
        seq![dec_char(n)]
    } else {
        dec_text(n / 10).push(dec_char(n % 10))
    }
}

/// The lower-case hexadecimal text of `n`, no leading zeros.
pub open spec fn hex_text(n: nat) -> Seq<char>
    decreases n,
{
    if n < 16 {
        seq![hex_char(n)]
    } else {
        hex_text(n / 16).push(hex_char(n % 16))
    }
}

/// The numeric value of a decimal digit string (0 when empty).
pub open spec fn dec_num(s: Seq<char>) -> nat
    decreases s.len(),
{
    if s.len() == 0 {
        0
    } else {
        dec_num(s.drop_last()) * 10 + dec_val(s.last())
    }
}

/// The numeric value of a hexadecimal digit string (0 when empty).
pub open spec fn hex_num(s: Seq<char>) -> nat
    decreases s.len(),
{
    if s.len() == 0 {
        0
    } else {
        hex_num(s.drop_last()) * 16 + hex_val(s.last())
    }
}

pub open spec fn all_dec_digits(s: Seq<char>) -> bool {
    forall|i: int| 0 <= i < s.len() ==> is_dec_digit(s[i])
}

pub open spec fn all_hex_digits(s: Seq<char>) -> bool {
    forall|i: int| 0 <= i < s.len() ==> is_hex_digit(s[i])
}

/// The decimal text is nonempty, made of decimal digits, and free of a
/// leading zero unless it is `"0"` itself.
pub proof fn lemma_dec_text_shape(n: nat)
    ensures
        dec_text(n).len() >= 1,
        all_dec_digits(dec_text(n)),
        dec_text(n)[0] == '0' ==> n == 0,
    decreases n,
{
    if n >= 10 {
        lemma_dec_text_shape(n / 10);
    }
}

/// The decimal digit character carries its value.
pub proof fn lemma_dec_char_val(d: nat)
    requires
        d < 10,
    ensures
        is_dec_digit(dec_char(d)),
        dec_val(dec_char(d)) == d,
{
}

/// Reading the decimal text of a number back gives the number.
pub proof fn lemma_dec_text_value(n: nat)
    ensures
        dec_num(dec_text(n)) == n,
    decreases n,
{
    if n < 10 {
        lemma_dec_char_val(n);
        assert(dec_text(n) == seq![dec_char(n)]);
        assert(dec_text(n).drop_last() =~= Seq::<char>::empty());
        assert(dec_text(n).last() == dec_char(n));
        assert(dec_num(dec_text(n)) == dec_num(dec_text(n).drop_last()) * 10 + dec_val(
            dec_text(n).last(),
        ));
        assert(dec_num(dec_text(n).drop_last()) == 0);
    } else {
        lemma_dec_text_value(n / 10);
        lemma_dec_char_val(n % 10);
        lemma_dec_num_snoc(dec_text(n / 10), dec_char(n % 10));
        assert(dec_num(dec_text(n)) == (n / 10) * 10 + n % 10);
        assert((n / 10) * 10 + n % 10 == n) by (nonlinear_arith);
    }
}

/// A number up to 255 needs at most three decimal digits.
pub proof fn lemma_dec_text_le3(n: nat)
    requires
        n <= 255,
    ensures
        dec_text(n).len() <= 3,
{
    if n >= 10 {
        assert(n / 10 <= 25);
        if n / 10 >= 10 {
            assert(n / 10 / 10 <= 2);
            assert(dec_text(n / 10 / 10).len() == 1);
        }
        assert(dec_text(n / 10).len() <= 2);
    }
}

/// The hexadecimal digit character carries its value.
pub proof fn lemma_hex_char_val(d: nat)
    requires
        d < 16,
    ensures
        is_hex_digit(hex_char(d)),
        hex_val(hex_char(d)) == d,
{
}

/// The hexadecimal text is nonempty and made of hexadecimal digits.
pub proof fn lemma_hex_text_shape(n: nat)
    ensures
        hex_text(n).len() >= 1,
        all_hex_digits(hex_text(n)),
    decreases n,
{
    if n >= 16 {
        lemma_hex_text_shape(n / 16);
    }
}

/// Reading the hexadecimal text of a number back gives the number.
pub proof fn lemma_hex_text_value(n: nat)
    ensures
        hex_num(hex_text(n)) == n,
    decreases n,
{
    if n < 16 {
        lemma_hex_char_val(n);
        assert(hex_text(n) == seq![hex_char(n)]);
        assert(hex_text(n).drop_last() =~= Seq::<char>::empty());
        assert(hex_text(n).last() == hex_char(n));
        assert(hex_num(hex_text(n)) == hex_num(hex_text(n).drop_last()) * 16 + hex_val(
            hex_text(n).last(),
        ));
        assert(hex_num(hex_text(n).drop_last()) == 0);
    } else {
        lemma_hex_text_value(n / 16);
        lemma_hex_char_val(n % 16);
        lemma_hex_num_snoc(hex_text(n / 16), hex_char(n % 16));
        assert(hex_num(hex_text(n)) == (n / 16) * 16 + n % 16);
        assert((n / 16) * 16 + n % 16 == n) by (nonlinear_arith);
    }
}

/// A number below 2^16 needs at most four hexadecimal digits.
pub proof fn lemma_hex_text_le4(n: nat)
    requires
        n < 65536,
    ensures
        hex_text(n).len() <= 4,
{
    if n >= 16 {
        assert(n / 16 < 4096);
        if n / 16 >= 16 {
            assert(n / 16 / 16 < 256);
            if n / 16 / 16 >= 16 {
                assert(n / 16 / 16 / 16 < 16);
                assert(hex_text(n / 16 / 16 / 16).len() == 1);
            }
            assert(hex_text(n / 16 / 16).len() <= 2);
        }
        assert(hex_text(n / 16).len() <= 3);
    }
}

/// Appending one digit multiplies the value by the base and adds the digit.
pub proof fn lemma_dec_num_snoc(s: Seq<char>, c: char)
    ensures
        dec_num(s.push(c)) == dec_num(s) * 10 + dec_val(c),
{
    assert(s.push(c).drop_last() =~= s);
}

pub proof fn lemma_hex_num_snoc(s: Seq<char>, c: char)
    ensures
        hex_num(s.push(c)) == hex_num(s) * 16 + hex_val(c),
{
    assert(s.push(c).drop_last() =~= s);
}

/// Extending a digit string never shrinks its value.
pub proof fn lemma_dec_num_prefix_le(s: Seq<char>, i: int)
    requires
        0 <= i <= s.len(),
    ensures
        dec_num(s.take(i)) <= dec_num(s),
    decreases s.len() - i,
{
    if i < s.len() {
        lemma_dec_num_prefix_le(s, i + 1);
        lemma_dec_num_snoc(s.take(i), s[i]);
        assert(s.take(i + 1) =~= s.take(i).push(s[i]));
        assert(dec_num(s.take(i)) * 10 + dec_val(s[i]) >= dec_num(s.take(i)));
    } else {
        assert(s.take(i) =~= s);
    }
}

/// A hexadecimal string of at most four digits stays below 2^16.
pub proof fn lemma_hex_num_bound(s: Seq<char>, bound: nat)
    requires
        all_hex_digits(s),
        s.len() <= bound,
        bound <= 4,
    ensures
        hex_num(s) < pow16(bound),
    decreases s.len(),
{
    if s.len() == 0 {
    } else {
        lemma_hex_num_bound(s.drop_last(), (bound - 1) as nat);
        assert(hex_val(s.last()) <= 15);
        assert(hex_num(s.drop_last()) <= pow16((bound - 1) as nat) - 1);
    }
}

/// 16 to the power `n`, for small `n`.
pub open spec fn pow16(n: nat) -> nat {
    if n == 0 {
        1
    } else if n == 1 {
        16
    } else if n == 2 {
        256
    } else if n == 3 {
        4096
    } else {
        65536
    }
}

/// Executable decimal digit for `d < 10`.
pub fn dec_char_of(d: u8) -> (c: char)
    requires
        d < 10,
    ensures
        c == dec_char(d as nat),
{
    match d {
        0 => '0',
        1 => '1',
        2 => '2',
        3 => '3',
        4 => '4',
        5 => '5',
        6 => '6',
        7 => '7',
        8 => '8',
        _ => '9',
    }
}

/// Executable hexadecimal digit for `d < 16`.
pub fn hex_char_of(d: u8) -> (c: char)
    requires
        d < 16,
    ensures
        c == hex_char(d as nat),
{
    if d < 10 {
        dec_char_of(d)
    } else {
        match d {
            10 => 'a',
            11 => 'b',
            12 => 'c',
            13 => 'd',
            14 => 'e',
            _ => 'f',
        }
    }
}

/// Executable test and value of a decimal digit character.
pub fn dec_val_of(c: char) -> (r: Option<u8>)
    ensures
        match r {
            Some(d) => is_dec_digit(c) && d as nat == dec_val(c) && d < 10,
            None => !is_dec_digit(c),
        },
{
    let u = c as u32;
    if u >= '0' as u32 && u <= '9' as u32 {
        Some((u - '0' as u32) as u8)
    } else {
        None
    }
}

/// Executable test and value of a hexadecimal digit character.
pub fn hex_val_of(c: char) -> (r: Option<u8>)
    ensures
        match r {
            Some(d) => is_hex_digit(c) && d as nat == hex_val(c) && d < 16,
            None => !is_hex_digit(c),
        },
{
    let u = c as u32;
    if u >= '0' as u32 && u <= '9' as u32 {
        Some((u - '0' as u32) as u8)
    } else if u >= 'a' as u32 && u <= 'f' as u32 {
        Some((u - 'a' as u32 + 10) as u8)
    } else if u >= 'A' as u32 && u <= 'F' as u32 {
        Some((u - 'A' as u32 + 10) as u8)
    } else {
        None
    }
}

/// Appends the decimal text of `n` to `out`.
pub fn push_dec(n: u128, out: &mut Vec<char>)
    ensures
        final (out)@ == old(out)@ + dec_text(n as nat),
    decreases n,
{
    if n < 10 {
        out.push(dec_char_of(n as u8));
        proof {
            assert(out@ =~= old(out)@ + dec_text(n as nat));
        }
    } else {
        push_dec(n / 10, out);
        out.push(dec_char_of((n % 10) as u8));
        proof {
            assert(out@ =~= old(out)@ + dec_text(n as nat));
        }
    }
}

/// Appends the lower-case hexadecimal text of `n` to `out`.
pub fn push_hex(n: u16, out: &mut Vec<char>)
    ensures
        final (out)@ == old(out)@ + hex_text(n as nat),
    decreases n,
{
    if n < 16 {
        out.push(hex_char_of(n as u8));
        proof {
            assert(out@ =~= old(out)@ + hex_text(n as nat));
        }
    } else {
        push_hex(n / 16, out);
        out.push(hex_char_of((n % 16) as u8));
        proof {
            assert(out@ =~= old(out)@ + hex_text(n as nat));
        }
    }
}

} // verus!
