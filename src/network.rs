//! A builder for the bytes of one outgoing frame.

use crate::convert::{be_u32_bytes, NetworkConvert, UsizeConverts};
use vstd::prelude::*;
use vstd::string::StringSliceAdditionalSpecFns;

verus! {

/// Bytes of an outgoing frame, appended to piece by piece.
pub struct Packet {
    data: Vec<u8>,
}

impl View for Packet {
    type V = Seq<u8>;

    closed spec fn view(&self) -> Seq<u8> {
        self.data@
    }
}

impl Packet {
    pub fn new() -> (r: Packet)
        ensures
            r@ == Seq::<u8>::empty(),
    {
        Packet { data: Vec::new() }
    }

    /// Appends the length of the text's UTF-8 form, as one byte, and that form.
    pub fn length_prefixed_string(self, string: &str) -> (r: Packet)
        requires
            string.spec_bytes().len() <= u8::MAX,
        ensures
            r@ == self@.push(string.spec_bytes().len() as u8) + string.spec_bytes(),
    {
        let raw = string.as_bytes();
        let len = match raw.len().to_u8() {
            Some(val) => val,
            None => 0,
        };
        self.byte(len).bytes(raw)
    }

    /// Appends the text's UTF-8 form.
    pub fn string(self, string: &str) -> (r: Packet)
        ensures
            r@ == self@ + string.spec_bytes(),
    {
        self.bytes(string.as_bytes())
    }

    pub fn bytes(self, bytes: &[u8]) -> (r: Packet)
        ensures
            r@ == self@ + bytes@,
    {
        let mut data = self.data;
        let ghost start = data@;
        let mut i: usize = 0;
        while i < bytes.len()
            invariant
                0 <= i <= bytes@.len(),
                data@ == start + bytes@.subrange(0, i as int),
            decreases bytes@.len() - i,
        {
            data.push(bytes[i]);
            i = i + 1;
            assert(data@ =~= start + bytes@.subrange(0, i as int));
        }
        assert(bytes@.subrange(0, bytes@.len() as int) =~= bytes@);
        Packet { data }
    }

    pub fn bytes_vec(self, bytes: &Vec<u8>) -> (r: Packet)
        ensures
            r@ == self@ + bytes@,
    {
        self.bytes(bytes.as_slice())
    }

    /// Appends the value's four bytes, most significant first.
    pub fn u32(self, val: u32) -> (r: Packet)
        ensures
            r@ == self@ + be_u32_bytes(val),
    {
        let raw = val.to_bytes_be();
        self.bytes(raw.as_slice())
    }

    pub fn byte(self, val: u8) -> (r: Packet)
        ensures
            r@ == self@.push(val),
    {
        let mut data = self.data;
        data.push(val);
        Packet { data }
    }

    /// The bytes appended so far.
    pub fn into_bytes(self) -> (r: Vec<u8>)
        ensures
            r@ == self@,
    {
        self.data
    }
}

} // verus!
