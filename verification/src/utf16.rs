//! The byte decoder: little-endian UTF-16 code units to text.
//!
//! Zero code units are padding and are elided.  A lone surrogate is not a
//! scalar value and decodes to the substitute character; surrogate pairs are
//! never combined, so text outside the basic plane is not reconstructed.

use vstd::prelude::*;

verus! {

/// The 16-bit code unit stored little-endian at byte offset `i` of `bytes`.
pub open spec fn unit_at(bytes: Seq<u8>, i: int) -> u16
    recommends
        0 <= i,
        i + 2 <= bytes.len(),
{
    (bytes[i] + 0x100 * bytes[i + 1]) as u16
}

/// The little-endian 16-bit code units of `bytes`; a trailing odd byte is dropped.
pub open spec fn utf16le_units(bytes: Seq<u8>) -> Seq<u16> {
    Seq::new(bytes.len() / 2, |i: int| unit_at(bytes, 2 * i))
}

/// How one nonzero code unit decodes: a surrogate, which is no scalar value on
/// its own, becomes the substitute `'?'`; every other unit is the scalar of
/// the same value.
pub open spec fn decode_unit(u: u16) -> char {
    if 0xD800 <= u < 0xE000 {
        '?'
    } else {
        u as char
    }
}

/// The text decoded from a run of UTF-16 code units: zero units are elided as
/// padding, the rest decode one by one in order.
pub open spec fn decode_units(units: Seq<u16>) -> Seq<char>
    decreases units.len(),
{
    if units.len() == 0 {
        Seq::<char>::empty()
    } else if units.last() == 0 {
        decode_units(units.drop_last())
    } else {
        decode_units(units.drop_last()).push(decode_unit(units.last()))
    }
}

/// The text decoded from a little-endian UTF-16 byte run.
pub open spec fn decode_utf16le(bytes: Seq<u8>) -> Seq<char> {
    decode_units(utf16le_units(bytes))
}

/// The UTF-16LE encoding of text whose scalars all lie in the basic plane
/// (each is one code unit, so two bytes).
pub open spec fn encode_utf16le(text: Seq<char>) -> Seq<u8>
    recommends
        forall|i: int| 0 <= i < text.len() ==> (text[i] as u32) < 0x10000,
{
    Seq::new(
        2 * text.len(),
        |i: int|
            if i % 2 == 0 {
                ((text[i / 2] as u32) % 0x100) as u8
            } else {
                (((text[i / 2] as u32) / 0x100) % 0x100) as u8
            },
    )
}

/// Relies on char::from_u32 of std: the scalar of the given value, or None
/// when the value is a surrogate or lies past the scalar range.
pub assume_specification[ char::from_u32 ](i: u32) -> (r: Option<char>)
    ensures
        (i < 0xD800 || (0xE000 <= i && i <= 0x10FFFF)) ==> r == Some(i as char),
        (0xD800 <= i < 0xE000 || i > 0x10FFFF) ==> r is None,
;

/// Relies on String::push of std: appends the one character to the end.
pub assume_specification[ String::push ](s: &mut String, c: char)
    ensures
        final(s)@ == old(s)@.push(c),
;

/// On units that are all nonzero and below the surrogate range, decoding
/// elides nothing and substitutes nothing: it maps each unit to its scalar.
proof fn lemma_decode_units_plain(units: Seq<u16>)
    requires
        forall|i: int| 0 <= i < units.len() ==> 0 < #[trigger] units[i] < 0xD800,
    ensures
        decode_units(units).len() == units.len(),
        forall|i: int|
            0 <= i < units.len() ==> #[trigger] decode_units(units)[i] == units[i] as char,
    decreases units.len(),
{
    if units.len() > 0 {
        lemma_decode_units_plain(units.drop_last());
    }
}

/// Law: on an even-length byte run whose code units are all nonzero and below
/// the surrogate range, decoding and then encoding again as UTF-16LE gives
/// back exactly the original bytes.
pub proof fn lemma_encode_decode_roundtrip(bytes: Seq<u8>)
    requires
        bytes.len() % 2 == 0,
        forall|i: int|
            0 <= i < utf16le_units(bytes).len() ==> 0 < #[trigger] utf16le_units(bytes)[i]
                < 0xD800,
    ensures
        encode_utf16le(decode_utf16le(bytes)) == bytes,
{
    let units = utf16le_units(bytes);
    let text = decode_utf16le(bytes);
    lemma_decode_units_plain(units);
    assert forall|i: int| 0 <= i < bytes.len() implies #[trigger] encode_utf16le(text)[i]
        == bytes[i] by {
        let j = if i % 2 == 0 {
            i / 2
        } else {
            (i - 1) / 2
        };
        let v: int = bytes[2 * j] + 0x100 * bytes[2 * j + 1];
        assert(units[j] == v as u16);
        assert((text[j] as u32) == v);
        vstd::arithmetic::div_mod::lemma_fundamental_div_mod_converse(
            v,
            0x100,
            bytes[2 * j + 1] as int,
            bytes[2 * j] as int,
        );
    }
    assert(encode_utf16le(text) =~= bytes);
}

} // verus!
