//! Fixed-width lower-case hexadecimal text. A number written with a fixed
//! number of digits compares, character by character, the way the number
//! itself compares.

use vstd::prelude::*;

verus! {

/// Sixteen to the power `width`: how many numbers `width` digits can tell apart.
pub open spec fn pow16(width: nat) -> nat
    decreases width,
{
    if width == 0 {
        1
    } else {
        16 * pow16((width - 1) as nat)
    }
}

/// The lower-case digit for `value`, which is below sixteen.
pub open spec fn hex_digit(value: nat) -> char {
    if value < 10 {
        (value + 48) as char
    } else {
        (value + 87) as char
    }
}

/// Whether `c` is one of `0`..`9`, `a`..`f`.
pub open spec fn is_hex_digit(c: char) -> bool {
    ('0' <= c && c <= '9') || ('a' <= c && c <= 'f')
}

/// `value` written with exactly `width` digits, most significant first.
/// Digits above the width are dropped.
pub open spec fn hex_text(value: nat, width: nat) -> Seq<char>
    decreases width,
{
    if width == 0 {
        Seq::empty()
    } else {
        hex_text(value / 16, (width - 1) as nat).push(hex_digit(value % 16))
    }
}

/// The digit of a value below sixteen is a hex digit, and the larger value
/// has the larger digit.
pub proof fn lemma_hex_digit(value: nat)
    requires
        value < 16,
    ensures
        is_hex_digit(hex_digit(value)),
        hex_digit(value) as nat == (if value < 10 { value + 48 } else { value + 87 }),
{
}

/// The text has `width` characters, all of them hex digits.
pub proof fn lemma_hex_text_shape(value: nat, width: nat)
    ensures
        hex_text(value, width).len() == width,
        forall|i: int| 0 <= i < width ==> is_hex_digit(#[trigger] hex_text(value, width)[i]),
    decreases width,
{
    if width > 0 {
        lemma_hex_text_shape(value / 16, (width - 1) as nat);
        lemma_hex_digit(value % 16);
    }
}

/// Numbers that `width` digits can hold are told apart by their text.
pub proof fn lemma_hex_text_injective(a: nat, b: nat, width: nat)
    requires
        a < pow16(width),
        b < pow16(width),
        hex_text(a, width) == hex_text(b, width),
    ensures
        a == b,
    decreases width,
{
    if width > 0 {
        let rest = (width - 1) as nat;
        let ta = hex_text(a / 16, rest);
        let tb = hex_text(b / 16, rest);
        assert(ta == hex_text(a, width).drop_last());
        assert(tb == hex_text(b, width).drop_last());
        assert(hex_digit(a % 16) == hex_text(a, width).last());
        assert(hex_digit(b % 16) == hex_text(b, width).last());
        lemma_hex_digit(a % 16);
        lemma_hex_digit(b % 16);
        lemma_hex_text_injective(a / 16, b / 16, rest);
    }
}

/// Where the texts of `a` and `b` first differ, for `a` below `b`: the
/// texts agree before that place, and there the digit of `a` is the smaller.
pub open spec fn first_smaller_digit(a: nat, b: nat, width: nat, at: int) -> bool {
    &&& 0 <= at < width
    &&& forall|j: int| 0 <= j < at ==> hex_text(a, width)[j] == hex_text(b, width)[j]
    &&& hex_text(a, width)[at] < hex_text(b, width)[at]
}

/// Fixed-width text keeps the order of the numbers: the smaller number has
/// the smaller digit at the first place where the two texts differ.
pub proof fn lemma_hex_text_ordered(a: nat, b: nat, width: nat)
    requires
        a < b,
        b < pow16(width),
    ensures
        exists|at: int| first_smaller_digit(a, b, width, at),
    decreases width,
{
    let rest = (width - 1) as nat;
    let qa = a / 16;
    let qb = b / 16;
    lemma_hex_text_shape(qa, rest);
    lemma_hex_text_shape(qb, rest);
    if qa < qb {
        lemma_hex_text_ordered(qa, qb, rest);
        let at = choose|at: int| first_smaller_digit(qa, qb, rest, at);
        assert(first_smaller_digit(a, b, width, at));
    } else {
        assert(qa == qb);
        lemma_hex_digit(a % 16);
        lemma_hex_digit(b % 16);
        assert(first_smaller_digit(a, b, width, width - 1));
    }
}

/// More digits hold more numbers.
pub proof fn lemma_pow16_monotone(small: nat, large: nat)
    requires
        small <= large,
    ensures
        pow16(small) <= pow16(large),
        pow16(small) >= 1,
    decreases large,
{
    if small < large {
        lemma_pow16_monotone(small, (large - 1) as nat);
    } else if small > 0 {
        lemma_pow16_monotone((small - 1) as nat, (small - 1) as nat);
    }
}

/// Sixteen digits hold exactly the 64-bit numbers.
pub proof fn lemma_pow16_sixteen()
    ensures
        pow16(15) == 0x1000_0000_0000_0000,
        pow16(16) == 0x1_0000_0000_0000_0000,
{
    reveal_with_fuel(pow16, 17);
}

/// The characters that the bytes stand for, one for one.
pub open spec fn bytes_as_chars(bytes: Seq<u8>) -> Seq<char> {
    Seq::new(bytes.len(), |i: int| bytes[i] as char)
}

/// `String::push` of the standard library appends the character to the
/// string.
pub assume_specification[ String::push ](text: &mut String, c: char)
    ensures
        final(text)@ == old(text)@.push(c),
;

/// The lower-case digit for `value`.
pub(crate) fn hex_digit_char(value: u8) -> (c: char)
    requires
        value < 16,
    ensures
        c == hex_digit(value as nat),
{
    if value < 10 {
        (value + 48) as char
    } else {
        (value + 87) as char
    }
}

/// Appends `value` to `out` as exactly `width` lower-case digits.
pub(crate) fn push_hex(out: &mut String, value: u64, width: usize)
    ensures
        final(out)@ == old(out)@ + hex_text(value as nat, width as nat),
    decreases width,
{
    if width > 0 {
        push_hex(out, value / 16, width - 1);
        out.push(hex_digit_char((value % 16) as u8));
        assert(final(out)@ == old(out)@ + hex_text(value as nat, width as nat));
    } else {
        assert(final(out)@ == old(out)@ + hex_text(value as nat, width as nat));
    }
}

/// The value of the lower-case digit `b`, if it is one.
pub(crate) fn hex_digit_of(b: u8) -> (r: Option<u8>)
    ensures
        match r {
            Some(v) => v < 16 && hex_digit(v as nat) == b as char,
            None => !is_hex_digit(b as char),
        },
{
    if 48 <= b && b <= 57 {
        Some(b - 48)
    } else if 97 <= b && b <= 102 {
        Some(b - 87)
    } else {
        None
    }
}

/// Reads the first `width` bytes as lower-case digits, most significant
/// first. `None` where one of them is no digit.
pub(crate) fn parse_hex(bytes: &[u8], width: usize) -> (r: Option<u64>)
    requires
        width <= 16,
        width <= bytes@.len(),
    ensures
        match r {
            Some(v) => v < pow16(width as nat) && hex_text(v as nat, width as nat)
                == bytes_as_chars(bytes@.subrange(0, width as int)),
            None => exists|i: int| 0 <= i < width && !is_hex_digit(#[trigger] bytes@[i] as char),
        },
{
    let mut value: u64 = 0;
    let mut i: usize = 0;
    while i < width
        invariant
            i <= width <= 16,
            width <= bytes@.len(),
            value < pow16(i as nat),
            hex_text(value as nat, i as nat) == bytes_as_chars(bytes@.subrange(0, i as int)),
        decreases width - i,
    {
        match hex_digit_of(bytes[i]) {
            None => {
                return None;
            },
            Some(digit) => {
                proof {
                    lemma_pow16_monotone(i as nat, 15);
                    lemma_pow16_sixteen();
                }
                let next: u64 = value * 16 + digit as u64;
                assert(hex_text(next as nat, (i + 1) as nat) =~= bytes_as_chars(
                    bytes@.subrange(0, i + 1),
                )) by {
                    assert(next as nat / 16 == value as nat);
                    assert(next as nat % 16 == digit as nat);
                    assert(bytes_as_chars(bytes@.subrange(0, i as int)) =~= bytes_as_chars(
                        bytes@.subrange(0, i + 1),
                    ).drop_last());
                }
                value = next;
                i += 1;
            },
        }
    }
    Some(value)
}

} // verus!
