//! Base64 with the standard alphabet and `=` padding (RFC 4648, section 4), the text encoding
//! that carries SMP packets over a serial console.
//!
//! Decoding is strict: the text must consist of whole groups of four characters, padding may only
//! close the last group, and the bits that padding discards must be zero. With these rules
//! decoding is the exact inverse of encoding (see [`lemma_decode_encode`] and
//! [`lemma_encode_decode`]).
use vstd::prelude::*;

verus! {

/// The padding character `=`.
pub const PAD: u8 = 61;

/// The character for a 6-bit value `v < 64`.
pub open spec fn b64_char(v: u8) -> u8 {
    if v < 26 {
        (v + 65) as u8
    } else if v < 52 {
        (v - 26 + 97) as u8
    } else if v < 62 {
        (v - 52 + 48) as u8
    } else if v == 62 {
        43
    } else {
        47
    }
}

/// The 6-bit value of a character of the alphabet; `None` for any other byte (padding included).
pub open spec fn b64_value(c: u8) -> Option<u8> {
    if 65 <= c <= 90 {
        Some((c - 65) as u8)
    } else if 97 <= c <= 122 {
        Some((c - 97 + 26) as u8)
    } else if 48 <= c <= 57 {
        Some((c - 48 + 52) as u8)
    } else if c == 43 {
        Some(62u8)
    } else if c == 47 {
        Some(63u8)
    } else {
        None
    }
}

/// Four characters for three bytes.
pub open spec fn encode_group(a: u8, b: u8, c: u8) -> Seq<u8> {
    seq![
        b64_char(a >> 2u8),
        b64_char(((a & 3u8) << 4u8) | (b >> 4u8)),
        b64_char(((b & 15u8) << 2u8) | (c >> 6u8)),
        b64_char(c & 63u8),
    ]
}

/// Four characters for a last group of one byte.
pub open spec fn encode_tail1(a: u8) -> Seq<u8> {
    seq![b64_char(a >> 2u8), b64_char((a & 3u8) << 4u8), PAD, PAD]
}

/// Four characters for a last group of two bytes.
pub open spec fn encode_tail2(a: u8, b: u8) -> Seq<u8> {
    seq![
        b64_char(a >> 2u8),
        b64_char(((a & 3u8) << 4u8) | (b >> 4u8)),
        b64_char((b & 15u8) << 2u8),
        PAD,
    ]
}

/// The Base64 text of a byte sequence.
pub open spec fn spec_b64_encode(s: Seq<u8>) -> Seq<u8>
    decreases s.len(),
{
    if s.len() == 0 {
        seq![]
    } else if s.len() == 1 {
        encode_tail1(s[0])
    } else if s.len() == 2 {
        encode_tail2(s[0], s[1])
    } else {
        encode_group(s[0], s[1], s[2]) + spec_b64_encode(s.skip(3))
    }
}

/// The bytes of one group of four characters; `last` tells whether padding may close it.
pub open spec fn decode_quad(c0: u8, c1: u8, c2: u8, c3: u8, last: bool) -> Option<Seq<u8>> {
    match (b64_value(c0), b64_value(c1)) {
        (Some(v0), Some(v1)) => {
            let a = (v0 << 2u8) | (v1 >> 4u8);
            if last && c2 == PAD && c3 == PAD {
                if v1 & 15u8 == 0 {
                    Some(seq![a])
                } else {
                    None
                }
            } else if last && c3 == PAD {
                match b64_value(c2) {
                    Some(v2) => if v2 & 3u8 == 0 {
                        Some(seq![a, ((v1 & 15u8) << 4u8) | (v2 >> 2u8)])
                    } else {
                        None
                    },
                    None => None,
                }
            } else {
                match (b64_value(c2), b64_value(c3)) {
                    (Some(v2), Some(v3)) => Some(
                        seq![
                            a,
                            ((v1 & 15u8) << 4u8) | (v2 >> 2u8),
                            ((v2 & 3u8) << 6u8) | v3,
                        ],
                    ),
                    _ => None,
                }
            }
        },
        _ => None,
    }
}

/// The bytes that a Base64 text stands for, or `None` when it is not valid Base64.
pub open spec fn spec_b64_decode(t: Seq<u8>) -> Option<Seq<u8>>
    decreases t.len(),
{
    if t.len() == 0 {
        Some(seq![])
    } else if t.len() < 4 {
        None
    } else {
        match decode_quad(t[0], t[1], t[2], t[3], t.len() == 4) {
            Some(g) => match spec_b64_decode(t.skip(4)) {
                Some(r) => Some(g + r),
                None => None,
            },
            None => None,
        }
    }
}

/// Length of the Base64 text of `n` bytes.
pub open spec fn spec_b64_len(n: nat) -> nat {
    4 * ((n + 2) / 3)
}

// ---------------------------------------------------------------------------------------------
// Character level

proof fn lemma_char_value(v: u8)
    requires
        v < 64,
    ensures
        b64_value(b64_char(v)) == Some(v),
        b64_char(v) != PAD,
{
}

proof fn lemma_value_char(c: u8)
    requires
        b64_value(c) is Some,
    ensures
        b64_value(c).unwrap() < 64,
        b64_char(b64_value(c).unwrap()) == c,
        c != PAD,
{
}

/// The RFC 4648 Base64 alphabet, in order:
/// `ABCDEFGHIJKLMNOPQRSTUVWXYZabcdefghijklmnopqrstuvwxyz0123456789+/`.
pub open spec fn base64_alphabet() -> Seq<u8> {
    seq![
        65u8, 66, 67, 68, 69, 70, 71, 72, 73, 74, 75, 76, 77, 78, 79, 80,
        81, 82, 83, 84, 85, 86, 87, 88, 89, 90, 97, 98, 99, 100, 101, 102,
        103, 104, 105, 106, 107, 108, 109, 110, 111, 112, 113, 114, 115, 116, 117, 118,
        119, 120, 121, 122, 48, 49, 50, 51, 52, 53, 54, 55, 56, 57, 43, 47,
    ]
}

/// Each 6-bit value is written as its character of the RFC 4648 alphabet, and that character
/// reads back as the value.
pub proof fn lemma_alphabet(v: u8)
    requires
        v < 64,
    ensures
        base64_alphabet().len() == 64,
        b64_char(v) == base64_alphabet()[v as int],
        b64_value(base64_alphabet()[v as int]) == Some(v),
{
    let a = base64_alphabet();
    assert(a.len() == 64);
    if v == 0 {
        assert(a[0] == 65);
    } else if v == 1 {
        assert(a[1] == 66);
    } else if v == 2 {
        assert(a[2] == 67);
    } else if v == 3 {
        assert(a[3] == 68);
    } else if v == 4 {
        assert(a[4] == 69);
    } else if v == 5 {
        assert(a[5] == 70);
    } else if v == 6 {
        assert(a[6] == 71);
    } else if v == 7 {
        assert(a[7] == 72);
    } else if v == 8 {
        assert(a[8] == 73);
    } else if v == 9 {
        assert(a[9] == 74);
    } else if v == 10 {
        assert(a[10] == 75);
    } else if v == 11 {
        assert(a[11] == 76);
    } else if v == 12 {
        assert(a[12] == 77);
    } else if v == 13 {
        assert(a[13] == 78);
    } else if v == 14 {
        assert(a[14] == 79);
    } else if v == 15 {
        assert(a[15] == 80);
    } else if v == 16 {
        assert(a[16] == 81);
    } else if v == 17 {
        assert(a[17] == 82);
    } else if v == 18 {
        assert(a[18] == 83);
    } else if v == 19 {
        assert(a[19] == 84);
    } else if v == 20 {
        assert(a[20] == 85);
    } else if v == 21 {
        assert(a[21] == 86);
    } else if v == 22 {
        assert(a[22] == 87);
    } else if v == 23 {
        assert(a[23] == 88);
    } else if v == 24 {
        assert(a[24] == 89);
    } else if v == 25 {
        assert(a[25] == 90);
    } else if v == 26 {
        assert(a[26] == 97);
    } else if v == 27 {
        assert(a[27] == 98);
    } else if v == 28 {
        assert(a[28] == 99);
    } else if v == 29 {
        assert(a[29] == 100);
    } else if v == 30 {
        assert(a[30] == 101);
    } else if v == 31 {
        assert(a[31] == 102);
    } else if v == 32 {
        assert(a[32] == 103);
    } else if v == 33 {
        assert(a[33] == 104);
    } else if v == 34 {
        assert(a[34] == 105);
    } else if v == 35 {
        assert(a[35] == 106);
    } else if v == 36 {
        assert(a[36] == 107);
    } else if v == 37 {
        assert(a[37] == 108);
    } else if v == 38 {
        assert(a[38] == 109);
    } else if v == 39 {
        assert(a[39] == 110);
    } else if v == 40 {
        assert(a[40] == 111);
    } else if v == 41 {
        assert(a[41] == 112);
    } else if v == 42 {
        assert(a[42] == 113);
    } else if v == 43 {
        assert(a[43] == 114);
    } else if v == 44 {
        assert(a[44] == 115);
    } else if v == 45 {
        assert(a[45] == 116);
    } else if v == 46 {
        assert(a[46] == 117);
    } else if v == 47 {
        assert(a[47] == 118);
    } else if v == 48 {
        assert(a[48] == 119);
    } else if v == 49 {
        assert(a[49] == 120);
    } else if v == 50 {
        assert(a[50] == 121);
    } else if v == 51 {
        assert(a[51] == 122);
    } else if v == 52 {
        assert(a[52] == 48);
    } else if v == 53 {
        assert(a[53] == 49);
    } else if v == 54 {
        assert(a[54] == 50);
    } else if v == 55 {
        assert(a[55] == 51);
    } else if v == 56 {
        assert(a[56] == 52);
    } else if v == 57 {
        assert(a[57] == 53);
    } else if v == 58 {
        assert(a[58] == 54);
    } else if v == 59 {
        assert(a[59] == 55);
    } else if v == 60 {
        assert(a[60] == 56);
    } else if v == 61 {
        assert(a[61] == 57);
    } else if v == 62 {
        assert(a[62] == 43);
    } else if v == 63 {
        assert(a[63] == 47);
    }
}

/// Only characters of the RFC 4648 alphabet are read as values, each as its position in it.
pub proof fn lemma_value_in_alphabet(c: u8)
    ensures
        b64_value(c) matches Some(v) ==> v < 64 && base64_alphabet()[v as int] == c,
        c == PAD ==> b64_value(c) is None,
{
    if let Some(v) = b64_value(c) {
        lemma_value_char(c);
        lemma_alphabet(v);
    }
}

// ---------------------------------------------------------------------------------------------
// Bit level

proof fn lemma_group_bits(a: u8, b: u8, c: u8)
    ensures
        a >> 2u8 < 64,
        ((a & 3u8) << 4u8) | (b >> 4u8) < 64,
        ((b & 15u8) << 2u8) | (c >> 6u8) < 64,
        c & 63u8 < 64,
        (a & 3u8) << 4u8 < 64,
        (b & 15u8) << 2u8 < 64,
        ((a >> 2u8) << 2u8) | ((((a & 3u8) << 4u8) | (b >> 4u8)) >> 4u8) == a,
        (((((a & 3u8) << 4u8) | (b >> 4u8)) & 15u8) << 4u8) | ((((b & 15u8) << 2u8) | (c >> 6u8))
            >> 2u8) == b,
        (((((b & 15u8) << 2u8) | (c >> 6u8)) & 3u8) << 6u8) | (c & 63u8) == c,
        ((a >> 2u8) << 2u8) | (((a & 3u8) << 4u8) >> 4u8) == a,
        (((a & 3u8) << 4u8) & 15u8) == 0,
        (((((a & 3u8) << 4u8) | (b >> 4u8)) & 15u8) << 4u8) | (((b & 15u8) << 2u8) >> 2u8) == b,
        (((b & 15u8) << 2u8) & 3u8) == 0,
{
    assert(a >> 2u8 < 64) by (bit_vector);
    assert(((a & 3u8) << 4u8) | (b >> 4u8) < 64) by (bit_vector);
    assert(((b & 15u8) << 2u8) | (c >> 6u8) < 64) by (bit_vector);
    assert(c & 63u8 < 64) by (bit_vector);
    assert((a & 3u8) << 4u8 < 64) by (bit_vector);
    assert((b & 15u8) << 2u8 < 64) by (bit_vector);
    assert(((a >> 2u8) << 2u8) | ((((a & 3u8) << 4u8) | (b >> 4u8)) >> 4u8) == a) by (bit_vector);
    assert((((((a & 3u8) << 4u8) | (b >> 4u8)) & 15u8) << 4u8) | ((((b & 15u8) << 2u8) | (c
        >> 6u8)) >> 2u8) == b) by (bit_vector);
    assert((((((b & 15u8) << 2u8) | (c >> 6u8)) & 3u8) << 6u8) | (c & 63u8) == c) by (bit_vector);
    assert(((a >> 2u8) << 2u8) | (((a & 3u8) << 4u8) >> 4u8) == a) by (bit_vector);
    assert((((a & 3u8) << 4u8) & 15u8) == 0) by (bit_vector);
    assert((((((a & 3u8) << 4u8) | (b >> 4u8)) & 15u8) << 4u8) | (((b & 15u8) << 2u8) >> 2u8)
        == b) by (bit_vector);
    assert((((b & 15u8) << 2u8) & 3u8) == 0) by (bit_vector);
}

proof fn lemma_quad_bits(v0: u8, v1: u8, v2: u8, v3: u8)
    requires
        v0 < 64,
        v1 < 64,
        v2 < 64,
        v3 < 64,
    ensures
        ({
            let a = (v0 << 2u8) | (v1 >> 4u8);
            let b = ((v1 & 15u8) << 4u8) | (v2 >> 2u8);
            let c = ((v2 & 3u8) << 6u8) | v3;
            &&& a >> 2u8 == v0
            &&& ((a & 3u8) << 4u8) | (b >> 4u8) == v1
            &&& ((b & 15u8) << 2u8) | (c >> 6u8) == v2
            &&& c & 63u8 == v3
            &&& (v1 & 15u8 == 0 ==> (a & 3u8) << 4u8 == v1)
            &&& (v2 & 3u8 == 0 ==> (b & 15u8) << 2u8 == v2)
        }),
{
    assert(v0 < 64 && v1 < 64 ==> ((v0 << 2u8) | (v1 >> 4u8)) >> 2u8 == v0) by (bit_vector);
    assert(v1 < 64 && v2 < 64 ==> ((((v0 << 2u8) | (v1 >> 4u8)) & 3u8) << 4u8) | ((((v1 & 15u8)
        << 4u8) | (v2 >> 2u8)) >> 4u8) == v1) by (bit_vector);
    assert(v2 < 64 && v3 < 64 ==> (((((v1 & 15u8) << 4u8) | (v2 >> 2u8)) & 15u8) << 2u8) | ((((v2
        & 3u8) << 6u8) | v3) >> 6u8) == v2) by (bit_vector);
    assert(v3 < 64 ==> (((v2 & 3u8) << 6u8) | v3) & 63u8 == v3) by (bit_vector);
    assert(v1 < 64 && v1 & 15u8 == 0 ==> (((v0 << 2u8) | (v1 >> 4u8)) & 3u8) << 4u8 == v1)
        by (bit_vector);
    assert(v2 < 64 && v2 & 3u8 == 0 ==> ((((v1 & 15u8) << 4u8) | (v2 >> 2u8)) & 15u8) << 2u8
        == v2) by (bit_vector);
}

// ---------------------------------------------------------------------------------------------
// Laws

/// Three bytes are written as four characters whose 6-bit values, in order, are the 24 bits of
/// the bytes taken big endian; a last group of one byte carries its 8 bits followed by 4 zero
/// bits, one of two bytes its 16 bits followed by 2 zero bits, and padding fills the group.
pub proof fn lemma_group_values(a: u8, b: u8, c: u8)
    ensures
        ({
            let g = encode_group(a, b, c);
            let (v0, v1, v2, v3) = (
                b64_value(g[0]).unwrap() as u32,
                b64_value(g[1]).unwrap() as u32,
                b64_value(g[2]).unwrap() as u32,
                b64_value(g[3]).unwrap() as u32,
            );
            &&& b64_value(g[0]) is Some && b64_value(g[1]) is Some
            &&& b64_value(g[2]) is Some && b64_value(g[3]) is Some
            &&& (v0 << 18u32) | (v1 << 12u32) | (v2 << 6u32) | v3 == ((a as u32) << 16u32) | ((
            b as u32) << 8u32) | (c as u32)
        }),
        ({
            let g = encode_tail1(a);
            let (v0, v1) = (b64_value(g[0]).unwrap() as u32, b64_value(g[1]).unwrap() as u32);
            &&& b64_value(g[0]) is Some && b64_value(g[1]) is Some
            &&& g[2] == 61 && g[3] == 61
            &&& (v0 << 6u32) | v1 == (a as u32) << 4u32
        }),
        ({
            let g = encode_tail2(a, b);
            let (v0, v1, v2) = (
                b64_value(g[0]).unwrap() as u32,
                b64_value(g[1]).unwrap() as u32,
                b64_value(g[2]).unwrap() as u32,
            );
            &&& b64_value(g[0]) is Some && b64_value(g[1]) is Some && b64_value(g[2]) is Some
            &&& g[3] == 61
            &&& (v0 << 12u32) | (v1 << 6u32) | v2 == (((a as u32) << 8u32) | (b as u32)) << 2u32
        }),
{
    lemma_group_bits(a, b, c);
    lemma_char_value(a >> 2u8);
    lemma_char_value(((a & 3u8) << 4u8) | (b >> 4u8));
    lemma_char_value(((b & 15u8) << 2u8) | (c >> 6u8));
    lemma_char_value(c & 63u8);
    lemma_char_value((a & 3u8) << 4u8);
    lemma_char_value((b & 15u8) << 2u8);
    assert((((a >> 2u8) as u32) << 18u32) | (((((a & 3u8) << 4u8) | (b >> 4u8)) as u32) << 12u32)
        | (((((b & 15u8) << 2u8) | (c >> 6u8)) as u32) << 6u32) | ((c & 63u8) as u32) == ((
    a as u32) << 16u32) | ((b as u32) << 8u32) | (c as u32)) by (bit_vector);
    assert((((a >> 2u8) as u32) << 6u32) | ((((a & 3u8) << 4u8)) as u32) == (a as u32) << 4u32)
        by (bit_vector);
    assert((((a >> 2u8) as u32) << 12u32) | (((((a & 3u8) << 4u8) | (b >> 4u8)) as u32) << 6u32)
        | ((((b & 15u8) << 2u8)) as u32) == (((a as u32) << 8u32) | (b as u32)) << 2u32)
        by (bit_vector);
}

/// The Base64 text of `n` bytes has `4 * ceil(n / 3)` characters.
pub proof fn lemma_encode_len(s: Seq<u8>)
    ensures
        spec_b64_encode(s).len() == spec_b64_len(s.len()),
    decreases s.len(),
{
    if s.len() >= 3 {
        lemma_encode_len(s.skip(3));
    }
}

/// Decoding the Base64 text of any byte sequence gives that sequence back.
pub proof fn lemma_decode_encode(s: Seq<u8>)
    ensures
        spec_b64_decode(spec_b64_encode(s)) == Some(s),
    decreases s.len(),
{
    let t = spec_b64_encode(s);
    lemma_encode_len(s);
    if s.len() == 0 {
    } else if s.len() == 1 {
        let a = s[0];
        lemma_group_bits(a, 0, 0);
        lemma_char_value(a >> 2u8);
        lemma_char_value((a & 3u8) << 4u8);
        assert(t.skip(4) =~= Seq::<u8>::empty());
        assert(spec_b64_decode(t.skip(4)) == Some(Seq::<u8>::empty()));
        assert(decode_quad(t[0], t[1], t[2], t[3], true) == Some(seq![a]));
        assert(seq![a] + Seq::<u8>::empty() =~= s);
        assert(spec_b64_decode(t) == Some(s));
    } else if s.len() == 2 {
        let a = s[0];
        let b = s[1];
        lemma_group_bits(a, b, 0);
        lemma_char_value(a >> 2u8);
        lemma_char_value(((a & 3u8) << 4u8) | (b >> 4u8));
        lemma_char_value((b & 15u8) << 2u8);
        assert(t.skip(4) =~= Seq::<u8>::empty());
        assert(spec_b64_decode(t.skip(4)) == Some(Seq::<u8>::empty()));
        assert(decode_quad(t[0], t[1], t[2], t[3], true) == Some(seq![a, b]));
        assert(seq![a, b] + Seq::<u8>::empty() =~= s);
        assert(spec_b64_decode(t) == Some(s));
    } else {
        let a = s[0];
        let b = s[1];
        let c = s[2];
        let g = encode_group(a, b, c);
        let rest = spec_b64_encode(s.skip(3));
        lemma_group_bits(a, b, c);
        lemma_char_value(a >> 2u8);
        lemma_char_value(((a & 3u8) << 4u8) | (b >> 4u8));
        lemma_char_value(((b & 15u8) << 2u8) | (c >> 6u8));
        lemma_char_value(c & 63u8);
        lemma_decode_encode(s.skip(3));
        assert(t == g + rest);
        assert(t.skip(4) =~= rest);
        assert(t[0] == g[0] && t[1] == g[1] && t[2] == g[2] && t[3] == g[3]);
        assert(decode_quad(t[0], t[1], t[2], t[3], t.len() == 4) == Some(seq![a, b, c]));
        assert(seq![a, b, c] + s.skip(3) =~= s);
        assert(spec_b64_decode(t) == Some(s));
    }
}

/// A text that decodes to some bytes is exactly the Base64 text of those bytes.
pub proof fn lemma_encode_decode(t: Seq<u8>)
    ensures
        spec_b64_decode(t) matches Some(s) ==> spec_b64_encode(s) == t,
    decreases t.len(),
{
    if t.len() >= 4 {
        let (c0, c1, c2, c3) = (t[0], t[1], t[2], t[3]);
        let last = t.len() == 4;
        if let Some(g) = decode_quad(c0, c1, c2, c3, last) {
            lemma_encode_decode(t.skip(4));
            if let Some(r) = spec_b64_decode(t.skip(4)) {
                let v0 = b64_value(c0).unwrap();
                let v1 = b64_value(c1).unwrap();
                lemma_value_char(c0);
                lemma_value_char(c1);
                if last && c2 == PAD && c3 == PAD {
                    lemma_quad_bits(v0, v1, 0, 0);
                    assert(r =~= Seq::<u8>::empty());
                    assert(g + r =~= g);
                    assert(spec_b64_encode(g) =~= t);
                } else if last && c3 == PAD {
                    let v2 = b64_value(c2).unwrap();
                    lemma_value_char(c2);
                    lemma_quad_bits(v0, v1, v2, 0);
                    assert(r =~= Seq::<u8>::empty());
                    assert(g + r =~= g);
                    assert(spec_b64_encode(g) =~= t);
                } else {
                    let v2 = b64_value(c2).unwrap();
                    let v3 = b64_value(c3).unwrap();
                    lemma_value_char(c2);
                    lemma_value_char(c3);
                    lemma_quad_bits(v0, v1, v2, v3);
                    let s = g + r;
                    assert(s.skip(3) =~= r);
                    assert(s[0] == g[0] && s[1] == g[1] && s[2] == g[2]);
                    assert(encode_group(g[0], g[1], g[2]) =~= t.take(4));
                    assert(t =~= t.take(4) + t.skip(4));
                }
            }
        }
    }
}

// ---------------------------------------------------------------------------------------------
// Executable code

fn char_of(v: u8) -> (r: u8)
    requires
        v < 64,
    ensures
        r == b64_char(v),
{
    if v < 26 {
        v + 65
    } else if v < 52 {
        v - 26 + 97
    } else if v < 62 {
        v - 52 + 48
    } else if v == 62 {
        43
    } else {
        47
    }
}

fn value_of(c: u8) -> (r: Option<u8>)
    ensures
        r == b64_value(c),
{
    if 65 <= c && c <= 90 {
        Some(c - 65)
    } else if 97 <= c && c <= 122 {
        Some(c - 97 + 26)
    } else if 48 <= c && c <= 57 {
        Some(c - 48 + 52)
    } else if c == 43 {
        Some(62)
    } else if c == 47 {
        Some(63)
    } else {
        None
    }
}

/// Encodes `data` as Base64 text.
pub fn base64_encode(data: &[u8]) -> (r: Vec<u8>)
    ensures
        r@ == spec_b64_encode(data@),
{
    let mut out: Vec<u8> = Vec::new();
    let len = data.len();
    let mut i: usize = 0;
    assert(data@.skip(0) =~= data@);
    while len - i >= 3
        invariant
            len == data@.len(),
            i <= len,
            spec_b64_encode(data@) == out@ + spec_b64_encode(data@.skip(i as int)),
        decreases len - i,
    {
        let a = data[i];
        let b = data[i + 1];
        let c = data[i + 2];
        proof {
            lemma_group_bits(a, b, c);
            assert(data@.skip(i as int).skip(3) =~= data@.skip(i + 3));
            assert(data@.skip(i as int)[0] == a && data@.skip(i as int)[1] == b
                && data@.skip(i as int)[2] == c);
        }
        let ghost old_out = out@;
        out.push(char_of(a >> 2u8));
        out.push(char_of(((a & 3u8) << 4u8) | (b >> 4u8)));
        out.push(char_of(((b & 15u8) << 2u8) | (c >> 6u8)));
        out.push(char_of(c & 63u8));
        assert(out@ =~= old_out + encode_group(a, b, c));
        assert(spec_b64_encode(data@.skip(i as int)) == encode_group(a, b, c)
            + spec_b64_encode(data@.skip(i + 3)));
        assert(old_out + (encode_group(a, b, c) + spec_b64_encode(data@.skip(i + 3))) =~= out@
            + spec_b64_encode(data@.skip(i + 3)));
        i = i + 3;
    }
    let ghost rest = data@.skip(i as int);
    if len - i == 1 {
        let a = data[i];
        proof {
            lemma_group_bits(a, 0, 0);
            assert(rest[0] == a);
        }
        out.push(char_of(a >> 2u8));
        out.push(char_of((a & 3u8) << 4u8));
        out.push(PAD);
        out.push(PAD);
    } else if len - i == 2 {
        let a = data[i];
        let b = data[i + 1];
        proof {
            lemma_group_bits(a, b, 0);
            assert(rest[0] == a && rest[1] == b);
        }
        out.push(char_of(a >> 2u8));
        out.push(char_of(((a & 3u8) << 4u8) | (b >> 4u8)));
        out.push(char_of((b & 15u8) << 2u8));
        out.push(PAD);
    }
    assert(out@ =~= spec_b64_encode(data@));
    out
}

fn decode_quad_exec(c0: u8, c1: u8, c2: u8, c3: u8, last: bool) -> (r: Option<Vec<u8>>)
    ensures
        match r {
            Some(v) => decode_quad(c0, c1, c2, c3, last) == Some(v@),
            None => decode_quad(c0, c1, c2, c3, last) is None,
        },
{
    let v0 = match value_of(c0) {
        Some(v) => v,
        None => return None,
    };
    let v1 = match value_of(c1) {
        Some(v) => v,
        None => return None,
    };
    let a = (v0 << 2u8) | (v1 >> 4u8);
    if last && c2 == PAD && c3 == PAD {
        if v1 & 15u8 == 0 {
            let mut out = Vec::new();
            out.push(a);
            assert(out@ =~= seq![a]);
            Some(out)
        } else {
            None
        }
    } else if last && c3 == PAD {
        match value_of(c2) {
            Some(v2) => if v2 & 3u8 == 0 {
                let mut out = Vec::new();
                out.push(a);
                out.push(((v1 & 15u8) << 4u8) | (v2 >> 2u8));
                assert(out@ =~= seq![a, ((v1 & 15u8) << 4u8) | (v2 >> 2u8)]);
                Some(out)
            } else {
                None
            },
            None => None,
        }
    } else {
        match (value_of(c2), value_of(c3)) {
            (Some(v2), Some(v3)) => {
                let mut out = Vec::new();
                out.push(a);
                out.push(((v1 & 15u8) << 4u8) | (v2 >> 2u8));
                out.push(((v2 & 3u8) << 6u8) | v3);
                assert(out@ =~= seq![
                    a,
                    ((v1 & 15u8) << 4u8) | (v2 >> 2u8),
                    ((v2 & 3u8) << 6u8) | v3,
                ]);
                Some(out)
            },
            _ => None,
        }
    }
}

/// Decodes Base64 text; `None` when `text` is not valid (strict) Base64.
pub fn base64_decode(text: &[u8]) -> (r: Option<Vec<u8>>)
    ensures
        match r {
            Some(v) => spec_b64_decode(text@) == Some(v@),
            None => spec_b64_decode(text@) is None,
        },
{
    let mut out: Vec<u8> = Vec::new();
    let len = text.len();
    let mut i: usize = 0;
    assert(text@.skip(0) =~= text@);
    assert(out@ + Seq::<u8>::empty() =~= out@);
    while i < len
        invariant
            len == text@.len(),
            i <= len,
            spec_b64_decode(text@) == match spec_b64_decode(text@.skip(i as int)) {
                Some(r) => Some(out@ + r),
                None => None,
            },
        decreases len - i,
    {
        let ghost rest = text@.skip(i as int);
        if len - i < 4 {
            return None;
        }
        let last = len - i == 4;
        let c0 = text[i];
        let c1 = text[i + 1];
        let c2 = text[i + 2];
        let c3 = text[i + 3];
        assert(rest[0] == c0 && rest[1] == c1 && rest[2] == c2 && rest[3] == c3);
        assert(rest.skip(4) =~= text@.skip(i + 4));
        match decode_quad_exec(c0, c1, c2, c3, last) {
            Some(g) => {
                let ghost old_out = out@;
                let ghost gv = g@;
                let mut g = g;
                out.append(&mut g);
                proof {
                    match spec_b64_decode(text@.skip(i + 4)) {
                        Some(r2) => {
                            assert(old_out + (gv + r2) =~= out@ + r2);
                        },
                        None => {},
                    }
                }
            },
            None => return None,
        }
        i = i + 4;
    }
    assert(text@.skip(len as int) =~= Seq::<u8>::empty());
    assert(out@ + Seq::<u8>::empty() =~= out@);
    Some(out)
}

} // verus!
