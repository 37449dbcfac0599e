//! Byte-level layout of page fields.
//!
//! An integer field is 4 bytes, big-endian, signed 32-bit, two's complement.
//! A byte field is a 4-byte big-endian length prefix followed by that many raw
//! bytes. A string field is a byte field holding the UTF-8 encoding of the
//! string. These spec functions pin the layout down; the lemmas state the
//! round-trip laws that the `Page` accessors are proved against.

use vstd::prelude::*;
use vstd::utf8::{decode_utf8, encode_utf8, valid_utf8};
use vstd::utf8::{encode_utf8_decode_utf8, encode_utf8_valid_utf8};

verus! {

/// The unsigned value held by 4 bytes read big-endian.
pub open spec fn be_u32_of(b: Seq<u8>) -> u32
    recommends
        b.len() == 4,
{
    ((b[0] as u32) << 24) | ((b[1] as u32) << 16) | ((b[2] as u32) << 8) | (b[3] as u32)
}

/// The signed 32-bit value held by 4 bytes read big-endian, two's complement.
pub open spec fn be_i32_of(b: Seq<u8>) -> i32 {
    be_u32_of(b) as i32
}

/// The 4-byte big-endian encoding of a signed 32-bit value.
pub open spec fn be_bytes_of(v: i32) -> Seq<u8> {
    seq![
        ((v as u32) >> 24) as u8,
        (((v as u32) >> 16) & 0xff) as u8,
        (((v as u32) >> 8) & 0xff) as u8,
        ((v as u32) & 0xff) as u8,
    ]
}

/// `p` with `b` written over the bytes starting at offset `o`.
pub open spec fn splice(p: Seq<u8>, o: int, b: Seq<u8>) -> Seq<u8>
    recommends
        0 <= o,
        o + b.len() <= p.len(),
{
    p.subrange(0, o) + b + p.subrange(o + b.len(), p.len() as int)
}

/// The on-page record of a byte field: length prefix, then the bytes.
pub open spec fn bytes_record(b: Seq<u8>) -> Seq<u8> {
    be_bytes_of(b.len() as i32) + b
}

/// The integer field stored at offset `o` of page contents `p`.
pub open spec fn int_field(p: Seq<u8>, o: int) -> i32 {
    be_i32_of(p.subrange(o, o + 4))
}

/// The byte field stored at offset `o`: the bytes following the length prefix.
pub open spec fn bytes_field(p: Seq<u8>, o: int) -> Seq<u8> {
    p.subrange(o + 4, o + 4 + int_field(p, o))
}

/// The byte field at offset `o` lies entirely within the page.
pub open spec fn bytes_field_in_bounds(p: Seq<u8>, o: int) -> bool {
    &&& 0 <= o
    &&& o + 4 <= p.len()
    &&& 0 <= int_field(p, o)
    &&& o + 4 + int_field(p, o) <= p.len()
}

/// Big-endian encoding then decoding of a signed 32-bit value is the identity.
pub proof fn lemma_be_round_trip(v: i32)
    ensures
        be_bytes_of(v).len() == 4,
        be_i32_of(be_bytes_of(v)) == v,
{
    let b = be_bytes_of(v);
    assert(((((((v as u32) >> 24) as u8) as u32) << 24) | (((((v as u32) >> 16) & 0xff) as u8)
        as u32) << 16 | (((((v as u32) >> 8) & 0xff) as u8) as u32) << 8 | ((((v as u32) & 0xff)
        as u8) as u32)) as i32 == v) by (bit_vector);
}

/// Reading back exactly the spliced range yields the spliced bytes, and the
/// bytes outside that range are untouched.
pub proof fn lemma_splice_parts(p: Seq<u8>, o: int, b: Seq<u8>)
    requires
        0 <= o,
        o + b.len() <= p.len(),
    ensures
        splice(p, o, b).len() == p.len(),
        splice(p, o, b).subrange(o, o + b.len() as int) == b,
        forall|i: int|
            0 <= i < p.len() && !(o <= i < o + b.len()) ==> splice(p, o, b)[i] == p[i],
{
    assert(splice(p, o, b).subrange(o, o + b.len() as int) =~= b);
}

/// Round trip for an integer field: writing the 4-byte big-endian encoding of
/// `v` at offset `o` and reading the integer field at `o` yields `v`.
pub proof fn lemma_int_round_trip(p: Seq<u8>, o: int, v: i32)
    requires
        0 <= o,
        o + 4 <= p.len(),
    ensures
        splice(p, o, be_bytes_of(v)).len() == p.len(),
        int_field(splice(p, o, be_bytes_of(v)), o) == v,
{
    lemma_be_round_trip(v);
    lemma_splice_parts(p, o, be_bytes_of(v));
    assert(splice(p, o, be_bytes_of(v)).subrange(o, o + 4) == be_bytes_of(v));
}

/// Round trip for a byte field: writing the record of `b` at offset `o` and
/// reading the byte field at `o` yields `b`.
pub proof fn lemma_bytes_round_trip(p: Seq<u8>, o: int, b: Seq<u8>)
    requires
        0 <= o,
        b.len() <= i32::MAX,
        o + 4 + b.len() <= p.len(),
    ensures
        splice(p, o, bytes_record(b)).len() == p.len(),
        bytes_field_in_bounds(splice(p, o, bytes_record(b)), o),
        bytes_field(splice(p, o, bytes_record(b)), o) == b,
{
    let r = bytes_record(b);
    let n = b.len() as i32;
    let p2 = splice(p, o, r);
    lemma_be_round_trip(n);
    lemma_splice_parts(p, o, r);
    assert(p2.subrange(o, o + 4) =~= be_bytes_of(n));
    assert(int_field(p2, o) == n);
    assert(p2.subrange(o + 4, o + 4 + n as int) =~= b);
}

/// Round trip for a string field: writing the record of the UTF-8 encoding of
/// `s` at offset `o` and decoding the byte field at `o` yields `s`.
pub proof fn lemma_string_round_trip(p: Seq<u8>, o: int, s: Seq<char>)
    requires
        0 <= o,
        encode_utf8(s).len() <= i32::MAX,
        o + 4 + encode_utf8(s).len() <= p.len(),
    ensures
        ({
            let p2 = splice(p, o, bytes_record(encode_utf8(s)));
            &&& p2.len() == p.len()
            &&& bytes_field_in_bounds(p2, o)
            &&& valid_utf8(bytes_field(p2, o))
            &&& decode_utf8(bytes_field(p2, o)) == s
        }),
{
    broadcast use encode_utf8_valid_utf8, encode_utf8_decode_utf8;

    lemma_bytes_round_trip(p, o, encode_utf8(s));
}

} // verus!
