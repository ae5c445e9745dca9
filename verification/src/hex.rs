//! Hex-encoded payloads: whitespace is ignored, and each two bytes of what is
//! left encode one byte.

use vstd::prelude::*;
use crate::addr::{hex_digit, hex_digit_value};
use crate::text::{is_white_space, is_whitespace_char, str_chars};

verus! {

/// `s` with every whitespace character removed.
pub open spec fn strip_white_space(s: Seq<char>) -> Seq<char>
    decreases s.len(),
{
    if s.len() == 0 {
        s
    } else if is_white_space(s.last()) {
        strip_white_space(s.drop_last())
    } else {
        strip_white_space(s.drop_last()).push(s.last())
    }
}

/// How many bytes UTF-8 takes for `c`.
pub open spec fn utf8_width(c: char) -> nat {
    let v = c as u32;
    if v < 0x80 {
        1
    } else if v < 0x800 {
        2
    } else if v < 0x10000 {
        3
    } else {
        4
    }
}

/// How many bytes UTF-8 takes for `s`.
pub open spec fn utf8_length(s: Seq<char>) -> nat
    decreases s.len(),
{
    if s.len() == 0 {
        0
    } else {
        utf8_length(s.drop_last()) + utf8_width(s.last())
    }
}

/// A one-byte (ASCII) character.
pub open spec fn is_ascii_char(c: char) -> bool {
    (c as u32) < 0x80
}

/// The byte that a two-character chunk encodes: two hex digits, either case,
/// the high one first.
pub open spec fn hex_pair_value(a: char, b: char) -> Option<u8> {
    match (hex_digit_value(a), hex_digit_value(b)) {
        (Some(x), Some(y)) => Some((x * 16 + y) as u8),
        _ => None,
    }
}

/// Reading the chunks of two bytes from the front: the first chunk that is
/// not a number ends the reading.
pub open spec fn hex_pairs(c: Seq<char>) -> Option<Seq<u8>>
    decreases c.len(),
{
    if c.len() == 0 {
        Some(seq![])
    } else if c.len() >= 2 && is_ascii_char(c[0]) && is_ascii_char(c[1]) {
        match hex_pair_value(c[0], c[1]) {
            Some(b) => match hex_pairs(c.subrange(2, c.len() as int)) {
                Some(r) => Some(seq![b] + r),
                None => None,
            },
            None => None,
        }
    } else {
        None
    }
}

/// Reading the chunks of two bytes from the front reaches a chunk whose
/// ends do not both fall between characters: a chunk that starts with an
/// ASCII character and ends inside the next one, or that starts a character
/// of three or four bytes.
pub open spec fn hex_pairs_split_char(c: Seq<char>) -> bool
    decreases c.len(),
{
    if c.len() == 0 {
        false
    } else if is_ascii_char(c[0]) {
        if c.len() >= 2 && is_ascii_char(c[1]) {
            match hex_pair_value(c[0], c[1]) {
                Some(b) => hex_pairs_split_char(c.subrange(2, c.len() as int)),
                None => false,
            }
        } else {
            c.len() >= 2
        }
    } else {
        utf8_width(c[0]) > 2
    }
}

/// The bytes that a hex payload encodes: whitespace removed, an odd number
/// of bytes is refused, then each chunk of two bytes is one byte.
pub open spec fn hex_payload(s: Seq<char>) -> Option<Seq<u8>> {
    let c = strip_white_space(s);
    if utf8_length(c) % 2 != 0 {
        None
    } else {
        hex_pairs(c)
    }
}

/// Reading a hex payload would cut a character in two (see `hex_pairs_split_char`).
pub open spec fn hex_payload_splits_char(s: Seq<char>) -> bool {
    let c = strip_white_space(s);
    utf8_length(c) % 2 == 0 && hex_pairs_split_char(c)
}

/// What reading a hex payload comes to.
pub enum HexPayload {
    /// The bytes it encodes.
    Decoded(Vec<u8>),
    /// It is not hex.
    Invalid,
    /// A two-byte chunk would end inside a character.
    SplitsChar,
}

fn char_utf8_width(c: char) -> (res: u8)
    ensures
        res as nat == utf8_width(c),
{
    let v = c as u32;
    if v < 0x80 {
        1
    } else if v < 0x800 {
        2
    } else if v < 0x10000 {
        3
    } else {
        4
    }
}

fn hex_pair(a: char, b: char) -> (res: Option<u8>)
    ensures
        res == hex_pair_value(a, b),
{
    match (hex_digit(a), hex_digit(b)) {
        (Some(x), Some(y)) => Some(x * 16 + y),
        _ => None,
    }
}

/// Reads a hex payload: whitespace anywhere is ignored.
pub fn decode_hex_payload(hex: &str) -> (res: HexPayload)
    ensures
        match res {
            HexPayload::Decoded(v) => hex_payload(hex@) == Some(v@) && !hex_payload_splits_char(
                hex@,
            ),
            HexPayload::Invalid => hex_payload(hex@) is None && !hex_payload_splits_char(hex@),
            HexPayload::SplitsChar => hex_payload_splits_char(hex@),
        },
{
    let cs = str_chars(hex);
    let mut clean: Vec<char> = Vec::new();
    let mut odd = false;
    let mut i: usize = 0;
    while i < cs.len()
        invariant
            i <= cs@.len(),
            cs@ == hex@,
            clean@ == strip_white_space(cs@.subrange(0, i as int)),
            odd == (utf8_length(clean@) % 2 == 1),
        decreases cs@.len() - i,
    {
        let c = cs[i];
        assert(cs@.subrange(0, i + 1).drop_last() =~= cs@.subrange(0, i as int));
        if !is_whitespace_char(c) {
            let w = char_utf8_width(c);
            assert(clean@.push(c).drop_last() =~= clean@);
            clean.push(c);
            if w % 2 == 1 {
                odd = !odd;
            }
        }
        i = i + 1;
    }
    assert(cs@.subrange(0, cs@.len() as int) =~= hex@);
    if odd {
        return HexPayload::Invalid;
    }
    let ghost c = clean@;
    let mut bytes: Vec<u8> = Vec::new();
    let mut k: usize = 0;
    assert(c.subrange(0, c.len() as int) =~= c);
    assert(bytes@ + seq![] =~= bytes@);
    while k < clean.len()
        invariant
            k <= clean@.len(),
            c == clean@,
            c == strip_white_space(hex@),
            utf8_length(c) % 2 == 0,
            hex_pairs(c) == match hex_pairs(c.subrange(k as int, c.len() as int)) {
                Some(r) => Some(bytes@ + r),
                None => None,
            },
            hex_pairs_split_char(c) == hex_pairs_split_char(c.subrange(k as int, c.len() as int)),
        decreases clean@.len() - k,
    {
        let ghost rest = c.subrange(k as int, c.len() as int);
        assert(rest[0] == clean@[k as int]);
        let a = clean[k];
        if (a as u32) >= 0x80 {
            if char_utf8_width(a) > 2 {
                return HexPayload::SplitsChar;
            }
            return HexPayload::Invalid;
        }
        if k + 1 >= clean.len() {
            return HexPayload::Invalid;
        }
        let b = clean[k + 1];
        assert(rest[1] == b);
        if (b as u32) >= 0x80 {
            return HexPayload::SplitsChar;
        }
        match hex_pair(a, b) {
            None => {
                return HexPayload::Invalid;
            },
            Some(x) => {
                assert(rest.subrange(2, rest.len() as int) =~= c.subrange(k + 2, c.len() as int));
                let ghost old_bytes = bytes@;
                bytes.push(x);
                proof {
                    let r = hex_pairs(c.subrange(k + 2, c.len() as int));
                    if r is Some {
                        assert(old_bytes + (seq![x] + r.unwrap()) =~= bytes@ + r.unwrap());
                    }
                }
            },
        }
        k = k + 2;
    }
    assert(c.subrange(k as int, c.len() as int) =~= Seq::<char>::empty());
    assert(bytes@ + seq![] =~= bytes@);
    HexPayload::Decoded(bytes)
}

/// Decodes a hex payload (see `hex_payload`): `None` when it is not hex.
/// The payload must not make a two-byte chunk end inside a character.
pub fn parse_hex(hex: &str) -> (res: Option<Vec<u8>>)
    requires
        !hex_payload_splits_char(hex@),
    ensures
        match res {
            Some(v) => hex_payload(hex@) == Some(v@),
            None => hex_payload(hex@) is None,
        },
{
    match decode_hex_payload(hex) {
        HexPayload::Decoded(v) => Some(v),
        _ => None,
    }
}

} // verus!
