//! Colours given as packed hexadecimal integers.
use vstd::prelude::*;

verus! {

/// An 8-bit-per-channel colour with alpha (the layout of a WinRT `Color`).
#[derive(Clone, Copy, Debug, PartialEq, Eq, Structural)]
pub struct UiColor {
    pub r: u8,
    pub g: u8,
    pub b: u8,
    pub a: u8,
}

/// The byte of `hex` that starts at bit `8 * k` (`k` counts from the least significant byte).
pub open spec fn byte_of(hex: u32, k: nat) -> int {
    (hex as int / pow256(k)) % 256
}

/// The nibble of `hex` that starts at bit `4 * k`.
pub open spec fn nibble_of(hex: u32, k: nat) -> int {
    (hex as int / pow16(k)) % 16
}

/// `256^k`.
pub open spec fn pow256(k: nat) -> int
    decreases k,
{
    if k == 0 { 1 } else { 256 * pow256((k - 1) as nat) }
}

/// `16^k`.
pub open spec fn pow16(k: nat) -> int
    decreases k,
{
    if k == 0 { 1 } else { 16 * pow16((k - 1) as nat) }
}

/// The 32-bit colour obtained from a 16-bit "web safe" colour by repeating every nibble:
/// nibble `k` of the input becomes byte `k` of the result, valued `17 * nibble`.
pub open spec fn spec_expand_websafe(hex: u32) -> int {
    17 * nibble_of(hex, 3) * 0x100_0000 + 17 * nibble_of(hex, 2) * 0x1_0000 + 17 * nibble_of(hex, 1)
        * 0x100 + 17 * nibble_of(hex, 0)
}

proof fn lemma_pow_values()
    ensures
        pow256(0) == 1,
        pow256(1) == 0x100,
        pow256(2) == 0x1_0000,
        pow256(3) == 0x100_0000,
        pow16(0) == 1,
        pow16(1) == 0x10,
        pow16(2) == 0x100,
        pow16(3) == 0x1000,
{
    reveal_with_fuel(pow256, 4);
    reveal_with_fuel(pow16, 4);
}

/// Expands a web safe `0xARGB` colour into `0xAARRGGBB`.
pub fn expand_websafe_hexcolor(hex: u32) -> (r: u32)
    ensures
        r == spec_expand_websafe(hex),
{
    proof {
        lemma_pow_values();
    }
    let n3 = (hex >> 12) & 0x0f;
    let n2 = (hex >> 8) & 0x0f;
    let n1 = (hex >> 4) & 0x0f;
    let n0 = hex & 0x0f;
    assert(n3 < 16 && n2 < 16 && n1 < 16 && n0 < 16) by (bit_vector)
        requires
            n3 == (hex >> 12) & 0x0f,
            n2 == (hex >> 8) & 0x0f,
            n1 == (hex >> 4) & 0x0f,
            n0 == hex & 0x0f,
    ;
    let r = (expand_nibble(n3) << 24) | (expand_nibble(n2) << 16) | (expand_nibble(n1) << 8)
        | expand_nibble(n0);
    assert(r == 17 * ((hex / 0x1000) % 16) * 0x100_0000 + 17 * ((hex / 0x100) % 16) * 0x1_0000 + 17
        * ((hex / 0x10) % 16) * 0x100 + 17 * (hex % 16)) by (bit_vector)
        requires
            r == ((((hex >> 12) & 0x0f) | (((hex >> 12) & 0x0f) << 4)) << 24) | ((((hex >> 8)
                & 0x0f) | (((hex >> 8) & 0x0f) << 4)) << 16) | ((((hex >> 4) & 0x0f) | (((hex
                >> 4) & 0x0f) << 4)) << 8) | ((hex & 0x0f) | ((hex & 0x0f) << 4)),
    ;
    r
}

/// Each byte of the expansion of a web safe colour is the matching nibble repeated:
/// byte `k` of `0xAARRGGBB` is 17 times nibble `k` of `0xARGB`.
pub proof fn lemma_websafe_bytes(hex: u32)
    ensures
        spec_expand_websafe(hex) <= u32::MAX,
        byte_of(spec_expand_websafe(hex) as u32, 3) == 17 * nibble_of(hex, 3),
        byte_of(spec_expand_websafe(hex) as u32, 2) == 17 * nibble_of(hex, 2),
        byte_of(spec_expand_websafe(hex) as u32, 1) == 17 * nibble_of(hex, 1),
        byte_of(spec_expand_websafe(hex) as u32, 0) == 17 * nibble_of(hex, 0),
{
    lemma_pow_values();
    let e: u32 = (17 * ((hex / 0x1000) % 16) * 0x100_0000 + 17 * ((hex / 0x100) % 16) * 0x1_0000
        + 17 * ((hex / 0x10) % 16) * 0x100 + 17 * (hex % 16)) as u32;
    assert(17 * ((hex / 0x1000) % 16) * 0x100_0000 + 17 * ((hex / 0x100) % 16) * 0x1_0000 + 17 * ((
    hex / 0x10) % 16) * 0x100 + 17 * (hex % 16) <= 0xffff_ffff) by (nonlinear_arith);
    assert(e / 0x100_0000 % 256 == 17 * ((hex / 0x1000) % 16)) by (bit_vector)
        requires
            e == 17 * ((hex / 0x1000) % 16) * 0x100_0000 + 17 * ((hex / 0x100) % 16) * 0x1_0000 + 17
                * ((hex / 0x10) % 16) * 0x100 + 17 * (hex % 16),
    ;
    assert(e / 0x1_0000 % 256 == 17 * ((hex / 0x100) % 16)) by (bit_vector)
        requires
            e == 17 * ((hex / 0x1000) % 16) * 0x100_0000 + 17 * ((hex / 0x100) % 16) * 0x1_0000 + 17
                * ((hex / 0x10) % 16) * 0x100 + 17 * (hex % 16),
    ;
    assert(e / 0x100 % 256 == 17 * ((hex / 0x10) % 16)) by (bit_vector)
        requires
            e == 17 * ((hex / 0x1000) % 16) * 0x100_0000 + 17 * ((hex / 0x100) % 16) * 0x1_0000 + 17
                * ((hex / 0x10) % 16) * 0x100 + 17 * (hex % 16),
    ;
    assert(e % 256 == 17 * (hex % 16)) by (bit_vector)
        requires
            e == 17 * ((hex / 0x1000) % 16) * 0x100_0000 + 17 * ((hex / 0x100) % 16) * 0x1_0000 + 17
                * ((hex / 0x10) % 16) * 0x100 + 17 * (hex % 16),
    ;
}

/// Repeats a nibble into both halves of a byte.
fn expand_nibble(x: u32) -> (r: u32)
    requires
        x < 16,
    ensures
        r == x | (x << 4),
        r == 17 * x,
{
    assert(x < 16 ==> x | (x << 4) == 17 * x) by (bit_vector);
    x | (x << 4)
}

/// Splits `0xRRGGBB` (the top byte is ignored) into a colour with the given alpha.
pub fn ui_color_from_hex_rgb_with_alpha(hex: u32, alpha: u8) -> (c: UiColor)
    ensures
        c.r == byte_of(hex, 2),
        c.g == byte_of(hex, 1),
        c.b == byte_of(hex, 0),
        c.a == alpha,
{
    proof {
        lemma_pow_values();
    }
    assert((hex >> 16) & 0xff == (hex / 0x1_0000) % 256) by (bit_vector);
    assert((hex >> 8) & 0xff == (hex / 0x100) % 256) by (bit_vector);
    assert(hex & 0xff == hex % 256) by (bit_vector);
    UiColor {
        r: ((hex >> 16) & 0xff) as u8,
        g: ((hex >> 8) & 0xff) as u8,
        b: (hex & 0xff) as u8,
        a: alpha,
    }
}

/// Splits `0xRRGGBB` into an opaque colour.
pub fn ui_color_from_hex_rgb(hex: u32) -> (c: UiColor)
    ensures
        c.r == byte_of(hex, 2),
        c.g == byte_of(hex, 1),
        c.b == byte_of(hex, 0),
        c.a == 255,
{
    ui_color_from_hex_rgb_with_alpha(hex, 255)
}

/// Decodes the web safe colour `0x?RGB` (the top nibble is ignored): every channel
/// is its nibble repeated, with the given alpha.
pub fn ui_color_from_websafe_hex_rgb_with_alpha(hex: u32, alpha: u8) -> (c: UiColor)
    ensures
        c.r == 17 * nibble_of(hex, 2),
        c.g == 17 * nibble_of(hex, 1),
        c.b == 17 * nibble_of(hex, 0),
        c.a == alpha,
{
    let e = expand_websafe_hexcolor(hex);
    proof {
        lemma_websafe_bytes(hex);
    }
    ui_color_from_hex_rgb_with_alpha(e, alpha)
}

/// Decodes the web safe colour `0x?RGB` into an opaque colour.
pub fn ui_color_from_websafe_hex_rgb(hex: u32) -> (c: UiColor)
    ensures
        c.r == 17 * nibble_of(hex, 2),
        c.g == 17 * nibble_of(hex, 1),
        c.b == 17 * nibble_of(hex, 0),
        c.a == 255,
{
    ui_color_from_websafe_hex_rgb_with_alpha(hex, 255)
}

/// The four bytes of `0xAARRGGBB`, as `(a, r, g, b)`; a Direct2D colour is each of them over 255.
pub fn hex_argb_channels(hex: u32) -> (c: (u8, u8, u8, u8))
    ensures
        c.0 == byte_of(hex, 3),
        c.1 == byte_of(hex, 2),
        c.2 == byte_of(hex, 1),
        c.3 == byte_of(hex, 0),
{
    proof {
        lemma_pow_values();
    }
    assert((hex >> 24) & 0xff == (hex / 0x100_0000) % 256) by (bit_vector);
    assert((hex >> 16) & 0xff == (hex / 0x1_0000) % 256) by (bit_vector);
    assert((hex >> 8) & 0xff == (hex / 0x100) % 256) by (bit_vector);
    assert(hex & 0xff == hex % 256) by (bit_vector);
    (((hex >> 24) & 0xff) as u8, ((hex >> 16) & 0xff) as u8, ((hex >> 8) & 0xff) as u8, (hex
        & 0xff) as u8)
}

/// The packed `0xAARRGGBB` form of an opaque `0x??RRGGBB` colour.
pub fn hex_argb_from_hex_rgb(hex: u32) -> (r: u32)
    ensures
        r == 0xff00_0000 + hex as int % 0x100_0000,
{
    assert(0xff00_0000 | (hex & 0x00ff_ffff) == 0xff00_0000 + hex % 0x100_0000) by (bit_vector);
    0xff00_0000 | (hex & 0x00ff_ffff)
}

/// The packed web safe `0xARGB` form of an opaque web safe `0x?RGB` colour.
pub fn websafe_hex_argb_from_websafe_hex_rgb(hex: u32) -> (r: u32)
    ensures
        r == 0xf000 + hex as int % 0x1000,
{
    assert(0xf000 | (hex & 0x0fff) == 0xf000 + hex % 0x1000) by (bit_vector);
    0xf000 | (hex & 0x0fff)
}

} // verus!
