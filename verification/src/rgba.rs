//! Colors as plain `[r, g, b, a]` byte arrays: opacity, packing into one
//! integer, hex notation and inversion of raw pixel buffers.

use vstd::prelude::*;
use crate::text::{chars_of, trim, trim_chars, trim_hashes, trim_start_by};

verus! {

/// The same color at a stated opacity.
pub fn alpha(color: [u8; 4], a: u8) -> (r: [u8; 4])
    ensures
        r@ == seq![color[0], color[1], color[2], a],
{
    let r = [color[0], color[1], color[2], a];
    proof {
        assert(r@ =~= seq![color[0], color[1], color[2], a]);
    }
    r
}

/// The integer that packs the channels of `c`, most significant first.
pub open spec fn packed(c: Seq<u8>) -> int {
    c[0] * 0x1000000 + c[1] * 0x10000 + c[2] * 0x100 + c[3]
}

/// The channels held in the low 32 bits of `color`, in the order `packed`
/// writes them.
pub open spec fn unpacked(color: i64) -> Seq<u8> {
    let u = color as u64;
    seq![
        ((u / 0x1000000) % 0x100) as u8,
        ((u / 0x10000) % 0x100) as u8,
        ((u / 0x100) % 0x100) as u8,
        (u % 0x100) as u8,
    ]
}

/// One integer holding a color, so that it can travel as a plain number.
pub fn pack(c: [u8; 4]) -> (p: i64)
    ensures
        p == packed(c@),
        0 <= p < 0x1_0000_0000,
{
    (c[0] as i64) * 0x1000000 + (c[1] as i64) * 0x10000 + (c[2] as i64) * 0x100 + (c[3] as i64)
}

/// The color held in the low 32 bits of `color`.
pub fn unpack(color: i64) -> (c: [u8; 4])
    ensures
        c@ == unpacked(color),
{
    let u = color as u64;
    let c = [
        ((u / 0x1000000) % 0x100) as u8,
        ((u / 0x10000) % 0x100) as u8,
        ((u / 0x100) % 0x100) as u8,
        (u % 0x100) as u8,
    ];
    proof {
        assert(c@ =~= unpacked(color));
    }
    c
}

/// Unpacking a packed color gives the color back.
pub proof fn lemma_unpack_pack(c: [u8; 4])
    ensures
        unpacked(packed(c@) as i64) == c@,
{
    let (a, b, d, e) = (c[0] as u64, c[1] as u64, c[2] as u64, c[3] as u64);
    let u: u64 = (a * 0x1000000 + b * 0x10000 + d * 0x100 + e) as u64;
    assert(u == packed(c@));
    assert((packed(c@) as i64) as u64 == u);
    assert((u / 0x1000000) % 0x100 == a && (u / 0x10000) % 0x100 == b && (u / 0x100) % 0x100 == d
        && u % 0x100 == e) by (bit_vector)
        requires
            a < 0x100,
            b < 0x100,
            d < 0x100,
            e < 0x100,
            u == a * 0x1000000 + b * 0x10000 + d * 0x100 + e,
    ;
    assert(unpacked(packed(c@) as i64) =~= c@);
}

/// Packing what was unpacked gives back any integer that a packed color can
/// be.
pub proof fn lemma_pack_unpack(color: i64)
    requires
        0 <= color < 0x1_0000_0000,
    ensures
        packed(unpacked(color)) == color,
{
    let u = color as u64;
    assert(u == color);
    assert(((u / 0x1000000) % 0x100) * 0x1000000 + ((u / 0x10000) % 0x100) * 0x10000 + ((u
        / 0x100) % 0x100) * 0x100 + u % 0x100 == u) by (bit_vector)
        requires
            u < 0x1_0000_0000,
    ;
}

/// The value of a hexadecimal digit.
pub open spec fn hex_digit_value(c: char) -> int {
    if '0' <= c <= '9' {
        c as int - '0' as int
    } else if 'a' <= c <= 'f' {
        c as int - 'a' as int + 10
    } else if 'A' <= c <= 'F' {
        c as int - 'A' as int + 10
    } else {
        -1
    }
}

pub open spec fn is_hex_digit(c: char) -> bool {
    hex_digit_value(c) >= 0
}

/// The number that hexadecimal digits write, most significant first.
pub open spec fn hex_number(s: Seq<char>) -> int
    decreases s.len(),
{
    if s.len() == 0 {
        0
    } else {
        hex_number(s.drop_last()) * 16 + hex_digit_value(s.last())
    }
}

/// What is left of a hex color to read: trimmed of whitespace, then of
/// any leading `'#'`.
pub open spec fn hex_body(text: Seq<char>) -> Seq<char> {
    trim_start_by(trim(text), |c: char| c == '#')
}

/// Whether `t` is exactly six or exactly eight hexadecimal digits.
pub open spec fn is_hex_color(t: Seq<char>) -> bool {
    &&& t.len() == 6 || t.len() == 8
    &&& forall|i: int| 0 <= i < t.len() ==> is_hex_digit(#[trigger] t[i])
}

/// The channels that a hex color writes, two digits each; six digits are
/// opaque.
pub open spec fn hex_color(t: Seq<char>) -> Seq<u8> {
    let v = hex_number(t);
    if t.len() == 6 {
        seq![((v / 0x10000) % 0x100) as u8, ((v / 0x100) % 0x100) as u8, (v % 0x100) as u8, 255u8]
    } else {
        seq![
            ((v / 0x1000000) % 0x100) as u8,
            ((v / 0x10000) % 0x100) as u8,
            ((v / 0x100) % 0x100) as u8,
            (v % 0x100) as u8,
        ]
    }
}

spec fn pow16(n: nat) -> int
    decreases n,
{
    if n == 0 {
        1
    } else {
        16 * pow16((n - 1) as nat)
    }
}

fn hex_digit(c: char) -> (d: Option<u32>)
    ensures
        d.is_some() <==> is_hex_digit(c),
        d.is_some() ==> d.unwrap() == hex_digit_value(c),
{
    if '0' <= c && c <= '9' {
        Some((c as u32) - ('0' as u32))
    } else if 'a' <= c && c <= 'f' {
        Some((c as u32) - ('a' as u32) + 10)
    } else if 'A' <= c && c <= 'F' {
        Some((c as u32) - ('A' as u32) + 10)
    } else {
        None
    }
}

/// Reads `#RRGGBB` or `#RRGGBBAA`, with or without the leading `#` and
/// with whitespace around it. A color written without its alpha channel is
/// opaque.
pub fn parse_hex(text: &str) -> (r: Option<[u8; 4]>)
    ensures
        r.is_some() <==> is_hex_color(hex_body(text@)),
        r.is_some() ==> r.unwrap()@ == hex_color(hex_body(text@)),
{
    let chars = chars_of(text);
    let trimmed = trim_chars(&chars);
    let body = trim_hashes(&trimmed);
    let ghost t = body@;
    let n = body.len();
    if n != 6 && n != 8 {
        return None;
    }
    let mut v: u32 = 0;
    let mut i: usize = 0;
    while i < n
        invariant
            t == body@,
            t == hex_body(text@),
            n == t.len(),
            n == 6 || n == 8,
            0 <= i <= n,
            v == hex_number(t.subrange(0, i as int)),
            v < pow16(i as nat),
            forall|j: int| 0 <= j < i ==> is_hex_digit(#[trigger] t[j]),
        decreases n - i,
    {
        match hex_digit(body[i]) {
            Some(d) => {
                let ghost prefix = t.subrange(0, i as int);
                assert(t.subrange(0, i + 1).drop_last() =~= prefix);
                assert(pow16(i as nat) <= 0x1000_0000) by {
                    reveal_with_fuel(pow16, 9);
                }
                v = v * 16 + d;
                i = i + 1;
            },
            None => {
                return None;
            },
        }
    }
    proof {
        assert(t.subrange(0, n as int) =~= t);
    }
    let c = if n == 6 {
        [((v / 0x10000) % 0x100) as u8, ((v / 0x100) % 0x100) as u8, (v % 0x100) as u8, 255u8]
    } else {
        [
            ((v / 0x1000000) % 0x100) as u8,
            ((v / 0x10000) % 0x100) as u8,
            ((v / 0x100) % 0x100) as u8,
            (v % 0x100) as u8,
        ]
    };
    proof {
        assert(c@ =~= hex_color(t));
    }
    Some(c)
}

/// Whether the byte at `i` of a pixel buffer is a color channel of a whole
/// four-byte pixel, as opposed to an alpha byte or one of a trailing partial
/// pixel.
pub open spec fn is_rgb_byte(len: int, i: int) -> bool {
    i < len - len % 4 && i % 4 < 3
}

/// Inverts the color channels of each whole RGBA pixel in `bytes`, leaving
/// alpha and any trailing partial pixel alone.
pub fn invert_rgb(bytes: &mut [u8])
    ensures
        final(bytes)@.len() == old(bytes)@.len(),
        forall|i: int|
            0 <= i < old(bytes)@.len() ==> #[trigger] final(bytes)@[i] == if is_rgb_byte(
                old(bytes)@.len() as int,
                i,
            ) {
                255 - old(bytes)@[i]
            } else {
                old(bytes)@[i] as int
            },
{
    let n = bytes.len();
    let whole = n - n % 4;
    let ghost before = bytes@;
    let mut i: usize = 0;
    while i < whole
        invariant
            n == before.len(),
            whole == n - n % 4,
            i <= whole,
            i % 4 == 0,
            bytes@.len() == n,
            forall|j: int|
                0 <= j < n ==> #[trigger] bytes@[j] == if j < i && is_rgb_byte(n as int, j) {
                    255 - before[j]
                } else {
                    before[j] as int
                },
        decreases whole - i,
    {
        bytes[i] = 255 - bytes[i];
        bytes[i + 1] = 255 - bytes[i + 1];
        bytes[i + 2] = 255 - bytes[i + 2];
        i = i + 4;
    }
}

} // verus!
