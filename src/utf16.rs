//! UTF-16LE text as stored in the name properties of an attachment.

use byteorder::{ByteOrder, LittleEndian};
use vstd::prelude::*;

verus! {

/// The 16-bit little-endian code units of `b`; a trailing odd byte is dropped.
pub open spec fn le_units(b: Seq<u8>) -> Seq<u16> {
    Seq::new(b.len() / 2, |i: int| (b[2 * i] as int + 256 * b[2 * i + 1] as int) as u16)
}

pub open spec fn is_high_surrogate(u: u16) -> bool {
    0xD800 <= u && u <= 0xDBFF
}

pub open spec fn is_low_surrogate(u: u16) -> bool {
    0xDC00 <= u && u <= 0xDFFF
}

pub open spec fn pair_scalar(hi: u16, lo: u16) -> u32 {
    (0x10000 + (hi - 0xD800) * 0x400 + (lo - 0xDC00)) as u32
}

/// The Unicode scalar values that a UTF-16 code-unit sequence encodes, or
/// `None` when it holds an unpaired surrogate.
pub open spec fn utf16_scalars(u: Seq<u16>) -> Option<Seq<u32>>
    decreases u.len(),
{
    if u.len() == 0 {
        Some(Seq::empty())
    } else if !is_high_surrogate(u[0]) && !is_low_surrogate(u[0]) {
        match utf16_scalars(u.drop_first()) {
            Some(rest) => Some(seq![u[0] as u32] + rest),
            None => None,
        }
    } else if is_high_surrogate(u[0]) && u.len() >= 2 && is_low_surrogate(u[1]) {
        match utf16_scalars(u.subrange(2, u.len() as int)) {
            Some(rest) => Some(seq![pair_scalar(u[0], u[1])] + rest),
            None => None,
        }
    } else {
        None
    }
}

/// The scalar values of a text.
pub open spec fn scalars_of(s: Seq<char>) -> Seq<u32> {
    s.map_values(|c: char| c as u32)
}

/// The text that UTF-16LE bytes hold, as scalar values.
pub open spec fn utf16le_text(b: Seq<u8>) -> Option<Seq<u32>> {
    utf16_scalars(le_units(b))
}

/// The UTF-16 code units of one scalar value.
pub open spec fn units_of_scalar(c: u32) -> Seq<u16> {
    if c < 0x10000 {
        seq![c as u16]
    } else {
        seq![(0xD800 + (c - 0x10000) / 0x400) as u16, (0xDC00 + (c - 0x10000) % 0x400) as u16]
    }
}

/// The UTF-16 encoding of a sequence of scalar values.
pub open spec fn utf16_encode(p: Seq<u32>) -> Seq<u16>
    decreases p.len(),
{
    if p.len() == 0 {
        Seq::empty()
    } else {
        units_of_scalar(p[0]) + utf16_encode(p.drop_first())
    }
}

/// Code units written out as little-endian byte pairs.
pub open spec fn le_bytes(u: Seq<u16>) -> Seq<u8> {
    Seq::new(
        2 * u.len(),
        |i: int|
            if i % 2 == 0 {
                (u[i / 2] % 256) as u8
            } else {
                (u[i / 2] / 256) as u8
            },
    )
}

/// The UTF-16LE bytes of a text.
pub open spec fn utf16le_of(t: Seq<char>) -> Seq<u8> {
    le_bytes(utf16_encode(scalars_of(t)))
}

pub open spec fn is_scalar_value(c: u32) -> bool {
    c < 0xD800 || (0xE000 <= c && c < 0x110000)
}

proof fn lemma_char_is_scalar_value(c: char)
    ensures
        is_scalar_value(c as u32),
{
}

proof fn lemma_char_code_injective(a: char, b: char)
    requires
        a as u32 == b as u32,
    ensures
        a == b,
{
}

proof fn lemma_le_units_of_le_bytes(u: Seq<u16>)
    ensures
        le_units(le_bytes(u)) == u,
{
    let b = le_bytes(u);
    assert forall|i: int| 0 <= i < u.len() implies #[trigger] le_units(b)[i] == u[i] by {
        assert((2 * i) / 2 == i && (2 * i) % 2 == 0);
        assert((2 * i + 1) / 2 == i && (2 * i + 1) % 2 == 1);
    }
    assert(le_units(b) =~= u);
}

proof fn lemma_decode_encode(p: Seq<u32>)
    requires
        forall|i: int| 0 <= i < p.len() ==> is_scalar_value(#[trigger] p[i]),
    ensures
        utf16_scalars(utf16_encode(p)) == Some(p),
    decreases p.len(),
{
    if p.len() > 0 {
        let rest = p.drop_first();
        lemma_decode_encode(rest);
        let e = utf16_encode(p);
        let c = p[0];
        assert(is_scalar_value(c));
        if c < 0x10000 {
            assert(e.drop_first() =~= utf16_encode(rest));
        } else {
            let hi = (0xD800 + (c - 0x10000) / 0x400) as u16;
            let lo = (0xDC00 + (c - 0x10000) % 0x400) as u16;
            assert(e[0] == hi && e[1] == lo);
            assert(pair_scalar(hi, lo) == c);
            assert(e.subrange(2, e.len() as int) =~= utf16_encode(rest));
        }
        assert(seq![c] + rest =~= p);
    }
}

/// Decoding the UTF-16LE encoding of any text gives back exactly that text:
/// its scalar values, and no other text has the same ones.
pub proof fn lemma_utf16le_round_trip(t: Seq<char>)
    ensures
        utf16le_text(utf16le_of(t)) == Some(scalars_of(t)),
        forall|s: Seq<char>| #[trigger] scalars_of(s) == scalars_of(t) ==> s == t,
{
    let p = scalars_of(t);
    assert forall|i: int| 0 <= i < p.len() implies is_scalar_value(#[trigger] p[i]) by {
        lemma_char_is_scalar_value(t[i]);
    }
    lemma_decode_encode(p);
    lemma_le_units_of_le_bytes(utf16_encode(p));
    assert forall|s: Seq<char>| #[trigger] scalars_of(s) == scalars_of(t) implies s == t by {
        assert(s.len() == scalars_of(s).len());
        assert forall|i: int| 0 <= i < s.len() implies s[i] == t[i] by {
            assert(scalars_of(s)[i] == scalars_of(t)[i]);
            lemma_char_code_injective(s[i], t[i]);
        }
        assert(s =~= t);
    }
}

/// A trailing odd byte takes no part in decoding: the bytes decode as if it
/// were absent.
pub proof fn lemma_odd_length_drops_last_byte(b: Seq<u8>)
    requires
        b.len() % 2 == 1,
    ensures
        le_units(b) == le_units(b.drop_last()),
        utf16le_text(b) == utf16le_text(b.drop_last()),
{
    assert(le_units(b) =~= le_units(b.drop_last()));
}

/// Relies on byteorder's `LittleEndian::read_u16`: the first byte is the low half.
#[verifier::external_body]
fn read_u16_le(lo: u8, hi: u8) -> (r: u16)
    ensures
        r as int == lo as int + 256 * hi as int,
{
    LittleEndian::read_u16(&[lo, hi])
}

/// Relies on `String::from_utf16`: decodes UTF-16 and fails on an unpaired surrogate.
#[verifier::external_body]
fn string_from_utf16(units: &[u16]) -> (r: Option<String>)
    ensures
        r is Some <==> utf16_scalars(units@) is Some,
        r matches Some(s) ==> scalars_of(s@) == utf16_scalars(units@)->Some_0,
{
    String::from_utf16(units).ok()
}

/// Reinterprets bytes as 16-bit little-endian code units, dropping a trailing
/// odd byte.
pub fn u8_to_16_vec(slice: &[u8]) -> (r: Vec<u16>)
    ensures
        r@ == le_units(slice@),
{
    let n = slice.len() / 2;
    let mut out: Vec<u16> = Vec::with_capacity(n);
    let mut i: usize = 0;
    while i < n
        invariant
            n == slice@.len() / 2,
            slice@.len() <= usize::MAX,
            i <= n,
            out@ == le_units(slice@).take(i as int),
        decreases n - i,
    {
        let u = read_u16_le(slice[2 * i], slice[2 * i + 1]);
        out.push(u);
        i += 1;
    }
    assert(out@ =~= le_units(slice@));
    out
}

/// Decodes a UTF-16LE name property; `None` when it is not valid UTF-16.
pub fn decode_utf16le(bytes: &[u8]) -> (r: Option<String>)
    ensures
        r is Some <==> utf16le_text(bytes@) is Some,
        r matches Some(s) ==> scalars_of(s@) == utf16le_text(bytes@)->Some_0,
{
    let units = u8_to_16_vec(bytes);
    string_from_utf16(units.as_slice())
}

} // verus!
