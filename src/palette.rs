use vstd::prelude::*;
use crate::event::EventError;

verus! {

/// Number of colors in the palette.
pub const PALETTE_SIZE: u8 = 32;

/// Index of white, the color every cell starts with.
pub const WHITE: u8 = 31;

/// The palette as 24-bit `0xRRGGBB` values, by index.
pub open spec fn palette_rgb(i: nat) -> u32 {
    if i == 0 { 0x000000 }
    else if i == 1 { 0x00CCC0 }
    else if i == 2 { 0x94B3FF }
    else if i == 3 { 0x6A5CFF }
    else if i == 4 { 0x009EAA }
    else if i == 5 { 0xE4ABFF }
    else if i == 6 { 0x00756F }
    else if i == 7 { 0x00A368 }
    else if i == 8 { 0x00CC78 }
    else if i == 9 { 0x2450A4 }
    else if i == 10 { 0x3690EA }
    else if i == 11 { 0x493AC1 }
    else if i == 12 { 0x515252 }
    else if i == 13 { 0x51E9F4 }
    else if i == 14 { 0x6D001A }
    else if i == 15 { 0x6D482F }
    else if i == 16 { 0x7EED56 }
    else if i == 17 { 0x811E9F }
    else if i == 18 { 0x898D90 }
    else if i == 19 { 0x9C6926 }
    else if i == 20 { 0xB44AC0 }
    else if i == 21 { 0xBE0039 }
    else if i == 22 { 0xD4D7D9 }
    else if i == 23 { 0xDE107F }
    else if i == 24 { 0xFF3881 }
    else if i == 25 { 0xFF4500 }
    else if i == 26 { 0xFF99AA }
    else if i == 27 { 0xFFA800 }
    else if i == 28 { 0xFFB470 }
    else if i == 29 { 0xFFD635 }
    else if i == 30 { 0xFFF8B8 }
    else { 0xFFFFFF }
}

/// The upper-case hexadecimal digit for a value below 16.
pub open spec fn hex_char(n: u32) -> u8 {
    if n < 10 { (48 + n) as u8 } else { (55 + n) as u8 }
}

/// The canonical token of palette entry `i`: `#` and six upper-case hex digits.
pub open spec fn color_token(i: nat) -> Seq<u8> {
    let v = palette_rgb(i);
    seq![
        35u8,
        hex_char((v >> 20u32) & 15u32),
        hex_char((v >> 16u32) & 15u32),
        hex_char((v >> 12u32) & 15u32),
        hex_char((v >> 8u32) & 15u32),
        hex_char((v >> 4u32) & 15u32),
        hex_char(v & 15u32),
    ]
}

/// The RGB triple of palette entry `i`.
pub open spec fn pixel_of(i: nat) -> (u8, u8, u8) {
    let v = palette_rgb(i);
    (((v >> 16u32) & 255u32) as u8, ((v >> 8u32) & 255u32) as u8, (v & 255u32) as u8)
}

/// Whether `s` is the token of some palette entry.
pub open spec fn is_color_token(s: Seq<u8>) -> bool {
    exists|i: nat| i < 32 && color_token(i) == s
}

fn rgb_of(i: u8) -> (r: u32)
    requires
        i < 32,
    ensures
        r == palette_rgb(i as nat),
{
    match i {
        0 => 0x000000,
        1 => 0x00CCC0,
        2 => 0x94B3FF,
        3 => 0x6A5CFF,
        4 => 0x009EAA,
        5 => 0xE4ABFF,
        6 => 0x00756F,
        7 => 0x00A368,
        8 => 0x00CC78,
        9 => 0x2450A4,
        10 => 0x3690EA,
        11 => 0x493AC1,
        12 => 0x515252,
        13 => 0x51E9F4,
        14 => 0x6D001A,
        15 => 0x6D482F,
        16 => 0x7EED56,
        17 => 0x811E9F,
        18 => 0x898D90,
        19 => 0x9C6926,
        20 => 0xB44AC0,
        21 => 0xBE0039,
        22 => 0xD4D7D9,
        23 => 0xDE107F,
        24 => 0xFF3881,
        25 => 0xFF4500,
        26 => 0xFF99AA,
        27 => 0xFFA800,
        28 => 0xFFB470,
        29 => 0xFFD635,
        30 => 0xFFF8B8,
        _ => 0xFFFFFF,
    }
}

/// The value of an upper-case hex digit, if `c` is one.
fn hex_value(c: u8) -> (r: Option<u32>)
    ensures
        r matches Some(d) ==> d < 16 && hex_char(d) == c,
        r is None ==> forall|d: u32| d < 16 ==> hex_char(d) != c,
{
    if 48 <= c && c <= 57 {
        Some((c - 48) as u32)
    } else if 65 <= c && c <= 70 {
        Some((c - 55) as u32)
    } else {
        None
    }
}

proof fn lemma_nibbles_compose(a: u32, b: u32, c: u32, d: u32, e: u32, f: u32)
    requires
        a < 16, b < 16, c < 16, d < 16, e < 16, f < 16,
    ensures
        ({
            let v = (a << 20u32) | (b << 16u32) | (c << 12u32) | (d << 8u32) | (e << 4u32) | f;
            (v >> 20u32) & 15u32 == a && (v >> 16u32) & 15u32 == b && (v >> 12u32) & 15u32 == c
                && (v >> 8u32) & 15u32 == d && (v >> 4u32) & 15u32 == e && v & 15u32 == f
        }),
{
    assert({
        let v = (a << 20u32) | (b << 16u32) | (c << 12u32) | (d << 8u32) | (e << 4u32) | f;
        (v >> 20u32) & 15u32 == a && (v >> 16u32) & 15u32 == b && (v >> 12u32) & 15u32 == c
            && (v >> 8u32) & 15u32 == d && (v >> 4u32) & 15u32 == e && v & 15u32 == f
    }) by (bit_vector)
        requires
            a < 16, b < 16, c < 16, d < 16, e < 16, f < 16,
    ;
}

proof fn lemma_nibbles_decompose(v: u32)
    requires
        v < 0x1000000,
    ensures
        v == (((v >> 20u32) & 15u32) << 20u32) | (((v >> 16u32) & 15u32) << 16u32) | (((v
            >> 12u32) & 15u32) << 12u32) | (((v >> 8u32) & 15u32) << 8u32) | (((v >> 4u32)
            & 15u32) << 4u32) | (v & 15u32),
{
    assert(v == (((v >> 20u32) & 15u32) << 20u32) | (((v >> 16u32) & 15u32) << 16u32) | (((v
        >> 12u32) & 15u32) << 12u32) | (((v >> 8u32) & 15u32) << 8u32) | (((v >> 4u32) & 15u32)
        << 4u32) | (v & 15u32)) by (bit_vector)
        requires
            v < 0x1000000,
    ;
}

proof fn lemma_hex_char_injective(x: u32, y: u32)
    requires
        x < 16,
        y < 16,
        hex_char(x) == hex_char(y),
    ensures
        x == y,
{
}

proof fn lemma_token_digits(i: nat)
    ensures
        ({
            let v = palette_rgb(i);
            let t = color_token(i);
            t.len() == 7 && t[0] == 35u8 && v < 0x1000000
            && (v >> 20u32) & 15u32 < 16 && t[1] == hex_char((v >> 20u32) & 15u32)
            && (v >> 16u32) & 15u32 < 16 && t[2] == hex_char((v >> 16u32) & 15u32)
            && (v >> 12u32) & 15u32 < 16 && t[3] == hex_char((v >> 12u32) & 15u32)
            && (v >> 8u32) & 15u32 < 16 && t[4] == hex_char((v >> 8u32) & 15u32)
            && (v >> 4u32) & 15u32 < 16 && t[5] == hex_char((v >> 4u32) & 15u32)
            && v & 15u32 < 16 && t[6] == hex_char(v & 15u32)
        }),
{
    let v = palette_rgb(i);
    assert((v >> 20u32) & 15u32 < 16) by (bit_vector);
    assert((v >> 16u32) & 15u32 < 16) by (bit_vector);
    assert((v >> 12u32) & 15u32 < 16) by (bit_vector);
    assert((v >> 8u32) & 15u32 < 16) by (bit_vector);
    assert((v >> 4u32) & 15u32 < 16) by (bit_vector);
    assert(v & 15u32 < 16) by (bit_vector);
}

/// Looks a color token up in the palette (exact, case-sensitive match).
pub fn color_to_index(color: &[u8]) -> (r: Result<u8, EventError>)
    ensures
        r matches Ok(k) ==> k < 32 && color_token(k as nat) == color@,
        r is Err ==> r == Err::<u8, EventError>(EventError::UnknownColor),
        r is Ok <==> is_color_token(color@),
{
    if color.len() != 7 || color[0] != 35u8 {
        return Err(EventError::UnknownColor);
    }
    let (d0, d1, d2, d3, d4, d5) = match (
        hex_value(color[1]),
        hex_value(color[2]),
        hex_value(color[3]),
        hex_value(color[4]),
        hex_value(color[5]),
        hex_value(color[6]),
    ) {
        (Some(a), Some(b), Some(c), Some(d), Some(e), Some(f)) => (a, b, c, d, e, f),
        _ => {
            proof {
                assert forall|j: nat| j < 32 implies color_token(j) != color@ by {
                    lemma_token_digits(j);
                }
            }
            return Err(EventError::UnknownColor);
        },
    };
    let v: u32 = (d0 << 20u32) | (d1 << 16u32) | (d2 << 12u32) | (d3 << 8u32) | (d4 << 4u32) | d5;
    proof {
        lemma_nibbles_compose(d0, d1, d2, d3, d4, d5);
    }
    let mut i: u8 = 0;
    while i < PALETTE_SIZE
        invariant
            i <= 32,
            forall|j: nat| j < i ==> palette_rgb(j) != v,
            color@.len() == 7,
            color@[0] == 35u8,
            d0 < 16 && hex_char(d0) == color@[1] && (v >> 20u32) & 15u32 == d0,
            d1 < 16 && hex_char(d1) == color@[2] && (v >> 16u32) & 15u32 == d1,
            d2 < 16 && hex_char(d2) == color@[3] && (v >> 12u32) & 15u32 == d2,
            d3 < 16 && hex_char(d3) == color@[4] && (v >> 8u32) & 15u32 == d3,
            d4 < 16 && hex_char(d4) == color@[5] && (v >> 4u32) & 15u32 == d4,
            d5 < 16 && hex_char(d5) == color@[6] && v & 15u32 == d5,
        decreases 32 - i,
    {
        if rgb_of(i) == v {
            proof {
                let t = color_token(i as nat);
                lemma_token_digits(i as nat);
                assert(t[1] == color@[1]);
                assert(t[2] == color@[2]);
                assert(t[3] == color@[3]);
                assert(t[4] == color@[4]);
                assert(t[5] == color@[5]);
                assert(t[6] == color@[6]);
                assert(t =~= color@);
            }
            return Ok(i);
        }
        i = i + 1;
    }
    proof {
        assert forall|j: nat| j < 32 implies color_token(j) != color@ by {
            if color_token(j) == color@ {
                let w = palette_rgb(j);
                lemma_token_digits(j);
                assert(color_token(j)[1] == color@[1]);
                assert(color_token(j)[2] == color@[2]);
                assert(color_token(j)[3] == color@[3]);
                assert(color_token(j)[4] == color@[4]);
                assert(color_token(j)[5] == color@[5]);
                assert(color_token(j)[6] == color@[6]);
                lemma_hex_char_injective((w >> 20u32) & 15u32, d0);
                lemma_hex_char_injective((w >> 16u32) & 15u32, d1);
                lemma_hex_char_injective((w >> 12u32) & 15u32, d2);
                lemma_hex_char_injective((w >> 8u32) & 15u32, d3);
                lemma_hex_char_injective((w >> 4u32) & 15u32, d4);
                lemma_hex_char_injective(w & 15u32, d5);
                lemma_nibbles_decompose(w);
            }
        }
    }
    Err(EventError::UnknownColor)
}

/// The palette index whose token is `s`, when `s` is a token.
pub open spec fn palette_index_of(s: Seq<u8>) -> u8 {
    choose|k: u8| k < 32 && color_token(k as nat) == s
}

/// Distinct palette entries have distinct tokens.
pub proof fn lemma_color_token_injective(i: nat, j: nat)
    requires
        i < 32,
        j < 32,
        color_token(i) == color_token(j),
    ensures
        i == j,
{
    let v = palette_rgb(i);
    let w = palette_rgb(j);
    lemma_token_digits(i);
    lemma_token_digits(j);
    assert(color_token(i)[1] == color_token(j)[1]);
    assert(color_token(i)[2] == color_token(j)[2]);
    assert(color_token(i)[3] == color_token(j)[3]);
    assert(color_token(i)[4] == color_token(j)[4]);
    assert(color_token(i)[5] == color_token(j)[5]);
    assert(color_token(i)[6] == color_token(j)[6]);
    lemma_hex_char_injective((v >> 20u32) & 15u32, (w >> 20u32) & 15u32);
    lemma_hex_char_injective((v >> 16u32) & 15u32, (w >> 16u32) & 15u32);
    lemma_hex_char_injective((v >> 12u32) & 15u32, (w >> 12u32) & 15u32);
    lemma_hex_char_injective((v >> 8u32) & 15u32, (w >> 8u32) & 15u32);
    lemma_hex_char_injective((v >> 4u32) & 15u32, (w >> 4u32) & 15u32);
    lemma_hex_char_injective(v & 15u32, w & 15u32);
    lemma_nibbles_decompose(v);
    lemma_nibbles_decompose(w);
    assert(v == w);
}

/// A token names exactly one palette entry.
pub proof fn lemma_palette_index_of(s: Seq<u8>, k: u8)
    requires
        k < 32,
        color_token(k as nat) == s,
    ensures
        palette_index_of(s) == k,
{
    let j = palette_index_of(s);
    lemma_color_token_injective(j as nat, k as nat);
}

/// The RGB triple of a palette index.
pub fn index_to_pixel(index: u8) -> (r: (u8, u8, u8))
    requires
        index < 32,
    ensures
        r == pixel_of(index as nat),
{
    let v = rgb_of(index);
    (((v >> 16u32) & 255u32) as u8, ((v >> 8u32) & 255u32) as u8, (v & 255u32) as u8)
}

} // verus!
