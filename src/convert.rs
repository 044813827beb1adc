//! Conversions between integers and their network byte forms, and checked
//! narrowing between integer widths.

use byteorder::{BigEndian, ByteOrder, LittleEndian};
use vstd::prelude::*;

verus! {

/// The integer that four bytes hold, most significant byte first.
pub open spec fn be_u32_value(b: Seq<u8>) -> int {
    b[0] * 0x100_0000 + b[1] * 0x1_0000 + b[2] * 0x100 + b[3]
}

/// The integer that four bytes hold, least significant byte first.
pub open spec fn le_u32_value(b: Seq<u8>) -> int {
    b[3] * 0x100_0000 + b[2] * 0x1_0000 + b[1] * 0x100 + b[0]
}

/// The four bytes of `v`, most significant first.
pub open spec fn be_u32_bytes(v: u32) -> Seq<u8> {
    seq![
        (v / 0x100_0000) as u8,
        ((v / 0x1_0000) % 0x100) as u8,
        ((v / 0x100) % 0x100) as u8,
        (v % 0x100) as u8,
    ]
}

/// The four bytes of `v`, least significant first.
pub open spec fn le_u32_bytes(v: u32) -> Seq<u8> {
    seq![
        (v % 0x100) as u8,
        ((v / 0x100) % 0x100) as u8,
        ((v / 0x1_0000) % 0x100) as u8,
        (v / 0x100_0000) as u8,
    ]
}

/// Reading back the big-endian bytes of a value gives the value.
pub proof fn lemma_be_u32_round_trip(v: u32)
    ensures
        be_u32_bytes(v).len() == 4,
        be_u32_value(be_u32_bytes(v)) == v as int,
{
    let b = be_u32_bytes(v);
    assert(b[0] == v / 0x100_0000);
    assert(b[1] == (v / 0x1_0000) % 0x100);
    assert(b[2] == (v / 0x100) % 0x100);
    assert(b[3] == v % 0x100);
}

/// Reading back the little-endian bytes of a value gives the value.
pub proof fn lemma_le_u32_round_trip(v: u32)
    ensures
        le_u32_bytes(v).len() == 4,
        le_u32_value(le_u32_bytes(v)) == v as int,
{
    let b = le_u32_bytes(v);
    assert(b[3] == v / 0x100_0000);
    assert(b[2] == (v / 0x1_0000) % 0x100);
    assert(b[1] == (v / 0x100) % 0x100);
    assert(b[0] == v % 0x100);
}

/// Relies on byteorder's `BigEndian::write_u32`: it stores the value's four
/// bytes, most significant first, in the first four places of the buffer.
#[verifier::external_body]
fn write_be_u32(v: u32) -> (r: [u8; 4])
    ensures
        r@ == be_u32_bytes(v),
{
    let mut buf = [0u8; 4];
    <BigEndian as ByteOrder>::write_u32(&mut buf, v);
    buf
}

/// Relies on byteorder's `LittleEndian::write_u32`: it stores the value's
/// four bytes, least significant first, in the first four places of the buffer.
#[verifier::external_body]
fn write_le_u32(v: u32) -> (r: [u8; 4])
    ensures
        r@ == le_u32_bytes(v),
{
    let mut buf = [0u8; 4];
    <LittleEndian as ByteOrder>::write_u32(&mut buf, v);
    buf
}

/// Relies on byteorder's `BigEndian::read_u32`: it reads the first four bytes,
/// most significant first, and panics on fewer than four.
#[verifier::external_body]
fn read_be_u32(b: &[u8]) -> (r: u32)
    requires
        b@.len() >= 4,
    ensures
        r as int == be_u32_value(b@),
{
    <BigEndian as ByteOrder>::read_u32(b)
}

/// Relies on byteorder's `LittleEndian::read_u32`: it reads the first four
/// bytes, least significant first, and panics on fewer than four.
#[verifier::external_body]
fn read_le_u32(b: &[u8]) -> (r: u32)
    requires
        b@.len() >= 4,
    ensures
        r as int == le_u32_value(b@),
{
    <LittleEndian as ByteOrder>::read_u32(b)
}

/// Conversion of a value to and from its network byte form `O`, made of
/// units `I`.
pub trait NetworkConvert<O, I>: Sized {
    /// `out` is the big-endian form of `self`.
    spec fn is_be_form(self, out: O) -> bool;

    /// `out` is the little-endian form of `self`.
    spec fn is_le_form(self, out: O) -> bool;

    /// The value that `bytes` holds in big-endian form.
    spec fn be_value_of(bytes: Seq<I>) -> Self;

    /// The value that `bytes` holds in little-endian form.
    spec fn le_value_of(bytes: Seq<I>) -> Self;

    /// `bytes` is long enough to hold a value.
    spec fn holds_value(bytes: Seq<I>) -> bool;

    fn to_bytes_be(self) -> (r: O)
        ensures
            self.is_be_form(r),
    ;

    fn from_bytes_be(bytes: &[I]) -> (r: Self)
        requires
            Self::holds_value(bytes@),
        ensures
            r == Self::be_value_of(bytes@),
    ;

    fn to_bytes_le(self) -> (r: O)
        ensures
            self.is_le_form(r),
    ;

    fn from_bytes_le(bytes: &[I]) -> (r: Self)
        requires
            Self::holds_value(bytes@),
        ensures
            r == Self::le_value_of(bytes@),
    ;
}

impl NetworkConvert<[u8; 4], u8> for u32 {
    open spec fn is_be_form(self, out: [u8; 4]) -> bool {
        out@ == be_u32_bytes(self)
    }

    open spec fn is_le_form(self, out: [u8; 4]) -> bool {
        out@ == le_u32_bytes(self)
    }

    open spec fn be_value_of(bytes: Seq<u8>) -> u32 {
        be_u32_value(bytes) as u32
    }

    open spec fn le_value_of(bytes: Seq<u8>) -> u32 {
        le_u32_value(bytes) as u32
    }

    open spec fn holds_value(bytes: Seq<u8>) -> bool {
        bytes.len() >= 4
    }

    fn to_bytes_be(self) -> (r: [u8; 4]) {
        write_be_u32(self)
    }

    fn from_bytes_be(bytes: &[u8]) -> (r: u32) {
        read_be_u32(bytes)
    }

    fn to_bytes_le(self) -> (r: [u8; 4]) {
        write_le_u32(self)
    }

    fn from_bytes_le(bytes: &[u8]) -> (r: u32) {
        read_le_u32(bytes)
    }
}

/// Checked narrowing of a `u32`.
pub trait U32Converts: Sized {
    /// The result of narrowing to `usize`.
    spec fn usize_of(self) -> Option<usize>;

    /// The result of narrowing to `u8`.
    spec fn u8_of(self) -> Option<u8>;

    fn to_usize(self) -> (r: Option<usize>)
        ensures
            r == self.usize_of(),
    ;

    fn to_u8(self) -> (r: Option<u8>)
        ensures
            r == self.u8_of(),
    ;
}

impl U32Converts for u32 {
    /// Every `u32` fits in a `usize`.
    open spec fn usize_of(self) -> Option<usize> {
        Some(self as usize)
    }

    open spec fn u8_of(self) -> Option<u8> {
        if self <= u8::MAX {
            Some(self as u8)
        } else {
            None
        }
    }

    fn to_usize(self) -> (r: Option<usize>) {
        Some(self as usize)
    }

    fn to_u8(self) -> (r: Option<u8>) {
        if self <= u8::MAX as u32 {
            Some(self as u8)
        } else {
            None
        }
    }
}

/// Checked narrowing of a `usize`.
pub trait UsizeConverts: Sized {
    /// The result of narrowing to `u32`.
    spec fn u32_of(self) -> Option<u32>;

    /// The result of narrowing to `u8`.
    spec fn u8_of(self) -> Option<u8>;

    fn to_u32(self) -> (r: Option<u32>)
        ensures
            r == self.u32_of(),
    ;

    fn to_u8(self) -> (r: Option<u8>)
        ensures
            r == self.u8_of(),
    ;
}

impl UsizeConverts for usize {
    open spec fn u32_of(self) -> Option<u32> {
        if self <= u32::MAX {
            Some(self as u32)
        } else {
            None
        }
    }

    open spec fn u8_of(self) -> Option<u8> {
        if self <= u8::MAX {
            Some(self as u8)
        } else {
            None
        }
    }

    fn to_u32(self) -> (r: Option<u32>) {
        if self <= u32::MAX as usize {
            Some(self as u32)
        } else {
            None
        }
    }

    fn to_u8(self) -> (r: Option<u8>) {
        if self <= u8::MAX as usize {
            Some(self as u8)
        } else {
            None
        }
    }
}

} // verus!
