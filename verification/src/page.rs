//! In-memory pages with typed, offset-addressed fields.

use crate::codec::{
    be_bytes_of, bytes_field, bytes_field_in_bounds, bytes_record, int_field, lemma_bytes_round_trip,
    splice,
};
use vstd::prelude::*;
use vstd::slice::slice_index_get;
use vstd::utf8::{decode_utf8, encode_utf8, valid_utf8};

verus! {

broadcast use vstd::std_specs::vec::group_vec_axioms;

/// A byte buffer of a fixed size, chosen at construction and never changed.
/// Field accessors read and write typed values at caller-supplied byte
/// offsets; writer and reader must agree out of band on which offsets hold
/// which types. The buffer's contents are caller-defined: there is no header
/// or self-describing schema.
#[derive(Debug)]
pub struct Page {
    pub(crate) byte_buffer: Vec<u8>,
}

impl View for Page {
    type V = Seq<u8>;

    closed spec fn view(&self) -> Seq<u8> {
        self.byte_buffer@
    }
}

impl Page {
    /// A zero-filled page of `blocksize` bytes.
    pub fn new(blocksize: usize) -> (p: Page)
        ensures
            p@.len() == blocksize,
            forall|i: int| 0 <= i < blocksize ==> p@[i] == 0u8,
    {
        let mut buf: Vec<u8> = Vec::new();
        while buf.len() < blocksize
            invariant
                buf.len() <= blocksize,
                forall|i: int| 0 <= i < buf.len() ==> buf@[i] == 0u8,
            decreases blocksize - buf.len(),
        {
            buf.push(0);
        }
        Page { byte_buffer: buf }
    }

    /// A page wrapping an existing byte vector; the vector's length becomes
    /// the page's blocksize.
    pub fn from_byte(byte_array: Vec<u8>) -> (p: Page)
        ensures
            p@ == byte_array@,
    {
        Page { byte_buffer: byte_array }
    }

    /// Reads the 4 bytes at `offset` as a big-endian signed 32-bit integer.
    pub fn get_int(&self, offset: usize) -> (r: i32)
        requires
            offset + 4 <= self@.len(),
        ensures
            r == int_field(self@, offset as int),
    {
        let blen: usize = self.byte_buffer.len();
        assert(offset + 4 <= blen);
        let b0: u8 = self.byte_buffer[offset];
        let b1: u8 = self.byte_buffer[offset + 1];
        let b2: u8 = self.byte_buffer[offset + 2];
        let b3: u8 = self.byte_buffer[offset + 3];
        let u: u32 = ((b0 as u32) << 24) | ((b1 as u32) << 16) | ((b2 as u32) << 8) | (b3 as u32);
        proof {
            assert(self@.subrange(offset as int, offset as int + 4) =~= seq![b0, b1, b2, b3]);
        }
        #[verifier::truncate] (u as i32)
    }

    /// Writes `num` as 4 big-endian bytes at `offset`.
    pub fn set_int(&mut self, offset: usize, num: i32)
        requires
            offset + 4 <= old(self)@.len(),
        ensures
            final(self)@.len() == old(self)@.len(),
            final(self)@ == splice(old(self)@, offset as int, be_bytes_of(num)),
    {
        let u: u32 = #[verifier::truncate] (num as u32);
        let b0: u8 = #[verifier::truncate] ((u >> 24) as u8);
        let b1: u8 = #[verifier::truncate] ((u >> 16) as u8);
        let b2: u8 = #[verifier::truncate] ((u >> 8) as u8);
        let b3: u8 = #[verifier::truncate] (u as u8);
        let blen: usize = self.byte_buffer.len();
        assert(offset + 4 <= blen);
        self.byte_buffer[offset] = b0;
        self.byte_buffer[offset + 1] = b1;
        self.byte_buffer[offset + 2] = b2;
        self.byte_buffer[offset + 3] = b3;
        proof {
            assert(b1 == (((num as u32) >> 16) & 0xff) as u8 && b2 == (((num as u32) >> 8)
                & 0xff) as u8 && b3 == ((num as u32) & 0xff) as u8) by (bit_vector)
                requires
                    u == num as u32,
                    b1 == ((u >> 16) as u8),
                    b2 == ((u >> 8) as u8),
                    b3 == (u as u8),
            ;
            assert(self@ =~= splice(old(self)@, offset as int, be_bytes_of(num)));
        }
    }

    /// Reads the byte field at `offset`: a 4-byte big-endian length prefix
    /// followed by that many raw bytes. Returns a fresh copy of the bytes.
    pub fn get_byte(&self, offset: usize) -> (r: Vec<u8>)
        requires
            bytes_field_in_bounds(self@, offset as int),
        ensures
            r@ == bytes_field(self@, offset as int),
    {
        let n: i32 = self.get_int(offset);
        let len: usize = n as usize;
        let blen: usize = self.byte_buffer.len();
        let mut r: Vec<u8> = Vec::new();
        let mut j: usize = 0;
        while j < len
            invariant
                j <= len,
                len == int_field(self@, offset as int),
                offset + 4 + len <= self@.len(),
                blen == self@.len(),
                r@ == self@.subrange(offset as int + 4, offset as int + 4 + j as int),
            decreases len - j,
        {
            r.push(self.byte_buffer[offset + 4 + j]);
            proof {
                assert(r@ =~= self@.subrange(offset as int + 4, offset as int + 4 + (j + 1)));
            }
            j += 1;
        }
        r
    }

    /// Writes a byte field at `offset`: the length of `bytes` as a big-endian
    /// signed 32-bit prefix, then the bytes themselves.
    pub fn set_byte(&mut self, offset: usize, bytes: &[u8])
        requires
            bytes@.len() <= i32::MAX,
            offset + 4 + bytes@.len() <= old(self)@.len(),
        ensures
            final(self)@.len() == old(self)@.len(),
            final(self)@ == splice(old(self)@, offset as int, bytes_record(bytes@)),
            bytes_field_in_bounds(final(self)@, offset as int),
            bytes_field(final(self)@, offset as int) == bytes@,
    {
        let n: i32 = bytes.len() as i32;
        self.set_int(offset, n);
        let ghost mid: Seq<u8> = self@;
        let blen: usize = self.byte_buffer.len();
        let mut j: usize = 0;
        while j < bytes.len()
            invariant
                j <= bytes@.len(),
                offset + 4 + bytes@.len() <= mid.len(),
                self@ == splice(mid, offset as int + 4, bytes@.subrange(0, j as int)),
                self@.len() == mid.len(),
                blen == self@.len(),
            decreases bytes@.len() - j,
        {
            self.byte_buffer[offset + 4 + j] = *slice_index_get(bytes, j);
            proof {
                assert(self@ =~= splice(mid, offset as int + 4, bytes@.subrange(0, j + 1)));
            }
            j += 1;
        }
        proof {
            assert(bytes@.subrange(0, bytes@.len() as int) =~= bytes@);
            assert(self@ =~= splice(old(self)@, offset as int, bytes_record(bytes@)));
            lemma_bytes_round_trip(old(self)@, offset as int, bytes@);
        }
    }

    /// Reads the byte field at `offset` and decodes it as UTF-8.
    pub fn get_string(&self, offset: usize) -> (r: String)
        requires
            bytes_field_in_bounds(self@, offset as int),
            valid_utf8(bytes_field(self@, offset as int)),
        ensures
            r@ == decode_utf8(bytes_field(self@, offset as int)),
    {
        let b: Vec<u8> = self.get_byte(offset);
        bytes_to_string(b).unwrap()
    }

    /// Writes the UTF-8 encoding of `s` as a byte field at `offset`.
    pub fn set_string(&mut self, offset: usize, s: &str)
        requires
            encode_utf8(s@).len() <= i32::MAX,
            offset + 4 + encode_utf8(s@).len() <= old(self)@.len(),
        ensures
            final(self)@.len() == old(self)@.len(),
            final(self)@ == splice(old(self)@, offset as int, bytes_record(encode_utf8(s@))),
    {
        let b: &[u8] = s.as_bytes();
        self.set_byte(offset, b);
    }

    /// The worst-case byte footprint of a string field of `strlen` characters:
    /// the 4-byte length prefix plus one byte per character. One byte per
    /// character is exact only for single-byte-encodable text; multi-byte
    /// characters take more.
    pub fn max_length(strlen: usize) -> (r: usize)
        requires
            strlen + 4 <= usize::MAX,
        ensures
            r == 4 + strlen,
    {
        4 + strlen
    }

    /// Reads the single byte at `i`.
    pub(crate) fn byte_at(&self, i: usize) -> (r: u8)
        requires
            i < self@.len(),
        ensures
            r == self@[i as int],
    {
        self.byte_buffer[i]
    }

    /// Overwrites the single byte at `i`.
    pub(crate) fn put_byte(&mut self, i: usize, b: u8)
        requires
            i < old(self)@.len(),
        ensures
            final(self)@ == old(self)@.update(i as int, b),
    {
        self.byte_buffer[i] = b;
    }

    /// The raw buffer, used for whole-block transfer.
    pub fn contents(&self) -> (r: &[u8])
        ensures
            r@ == self@,
    {
        self.byte_buffer.as_slice()
    }

    /// Mutable access to the raw buffer, used for whole-block transfer.
    pub fn contents_mut(&mut self) -> (r: &mut [u8])
        ensures
            r@ == old(self)@,
            final(self)@ == final(r)@,
    {
        self.byte_buffer.as_mut_slice()
    }
}

/// Relies on `String::from_utf8`: it returns `Ok` exactly when the bytes are
/// valid UTF-8, and the returned string holds the characters those bytes
/// encode.
#[verifier::external_body]
fn bytes_to_string(v: Vec<u8>) -> (r: Option<String>)
    ensures
        r is Some <==> valid_utf8(v@),
        r is Some ==> r.unwrap()@ == decode_utf8(v@),
{
    String::from_utf8(v).ok()
}

} // verus!
