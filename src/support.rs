//! Identifiers and small value types shared by the codec and the scheduler.

use rustc_serialize::hex::{FromHex, ToHex};
use vstd::prelude::*;
use vstd::string::StringSliceAdditionalSpecFns;
use vstd::utf8::{decode_utf8, valid_utf8};

verus! {

/// The lowercase hexadecimal digit for a value below 16.
pub open spec fn hex_char(n: int) -> char {
    seq!['0', '1', '2', '3', '4', '5', '6', '7', '8', '9', 'a', 'b', 'c', 'd', 'e', 'f'][n]
}

/// Two lowercase hexadecimal digits for each byte, high half first.
pub open spec fn hex_text(b: Seq<u8>) -> Seq<char> {
    Seq::new(
        2 * b.len(),
        |i: int|
            if i % 2 == 0 {
                hex_char((b[i / 2] / 16) as int)
            } else {
                hex_char((b[i / 2] % 16) as int)
            },
    )
}

/// A byte that is an ASCII hexadecimal digit, in either case.
pub open spec fn is_hex_digit(b: u8) -> bool {
    (0x30 <= b <= 0x39) || (0x41 <= b <= 0x46) || (0x61 <= b <= 0x66)
}

/// The value of a hexadecimal digit.
pub open spec fn hex_digit_value(b: u8) -> int {
    if b <= 0x39 {
        b - 0x30
    } else if b <= 0x46 {
        b - 0x41 + 10
    } else {
        b - 0x61 + 10
    }
}

/// The blanks that hexadecimal decoding skips: space, carriage return, line
/// feed and tab.
pub open spec fn is_hex_blank(b: u8) -> bool {
    b == 0x20 || b == 0x0d || b == 0x0a || b == 0x09
}

/// The bytes of `s` that hexadecimal decoding does not skip.
pub open spec fn hex_unblanked(s: Seq<u8>) -> Seq<u8> {
    s.filter(|b: u8| !is_hex_blank(b))
}

/// The bytes that a sequence of hexadecimal digits spells, two digits each.
pub open spec fn hex_pairs(d: Seq<u8>) -> Seq<u8> {
    Seq::new(
        d.len() / 2,
        |i: int| (hex_digit_value(d[2 * i]) * 16 + hex_digit_value(d[2 * i + 1])) as u8,
    )
}

/// Whether hexadecimal decoding accepts the bytes `s`: once blanks are
/// skipped, an even number of digits.
pub open spec fn hex_decodable(s: Seq<u8>) -> bool {
    &&& forall|i: int| 0 <= i < hex_unblanked(s).len() ==> is_hex_digit(#[trigger] hex_unblanked(s)[i])
    &&& hex_unblanked(s).len() % 2 == 0
}

/// Relies on rustc_serialize's `ToHex` for byte slices: two lowercase digits
/// per byte, high half first.
#[verifier::external_body]
fn hex_of(b: &[u8]) -> (r: String)
    ensures
        r@ == hex_text(b@),
{
    b.to_hex()
}

/// Relies on rustc_serialize's `FromHex` for `str`: it skips blanks, reads
/// digits of either case in pairs, and fails on any other byte or on an odd
/// number of digits.
#[verifier::external_body]
fn bytes_of_hex(s: &str) -> (r: Option<Vec<u8>>)
    ensures
        r is Some <==> hex_decodable(s.spec_bytes()),
        r matches Some(v) ==> v@ == hex_pairs(hex_unblanked(s.spec_bytes())),
{
    match s.from_hex() {
        Ok(v) => Some(v),
        Err(_) => None,
    }
}

/// Relies on `std::str::from_utf8`: it accepts exactly the valid UTF-8
/// sequences, and the text is what they decode to.
#[verifier::external_body]
fn text_of_utf8(b: &[u8]) -> (r: Option<String>)
    ensures
        r is Some <==> valid_utf8(b@),
        r matches Some(s) ==> s@ == decode_utf8(b@),
{
    match std::str::from_utf8(b) {
        Ok(s) => Some(s.to_string()),
        Err(_) => None,
    }
}

/// The first twenty bytes of `bytes`, as an array.
fn to_fixed_size_hash_bytes(bytes: &[u8]) -> (r: [u8; 20])
    requires
        bytes@.len() == 20,
    ensures
        r@ == bytes@,
{
    let mut new_bytes = [0u8; 20];
    let mut i: usize = 0;
    while i < 20
        invariant
            0 <= i <= 20,
            bytes@.len() == 20,
            new_bytes@.len() == 20,
            forall|j: int| 0 <= j < i ==> new_bytes@[j] == bytes@[j],
        decreases 20 - i,
    {
        new_bytes[i] = bytes[i];
        i = i + 1;
    }
    assert(new_bytes@ =~= bytes@);
    new_bytes
}

/// What a wait with a deadline produced: a value, or the deadline.
pub enum Timeout<T> {
    Ready(T),
    Timeout,
}

/// The extension flags announced in a handshake. No extension is supported,
/// so the only value is the empty set.
#[derive(Clone, Copy, Debug, PartialEq, Eq, Structural)]
pub struct Extensions;

/// The empty set of extensions.
pub const NONE: Extensions = Extensions;

impl Extensions {
    /// The eight reserved bytes of a handshake: all zero.
    pub fn to_bytes(&self) -> (r: [u8; 8])
        ensures
            r@ == Seq::new(8, |i: int| 0u8),
    {
        let r = [0u8; 8];
        assert(r@ =~= Seq::new(8, |i: int| 0u8));
        r
    }
}

/// The start of a block: a piece index and a byte offset within the piece.
#[derive(Clone, Copy, Debug, Hash, PartialEq, Eq, Structural)]
pub struct BlockBegin {
    pub piece: u32,
    pub offset: u32,
}

/// A block to transfer: where it starts and how many bytes it has.
#[derive(Clone, Copy, Debug, Hash, PartialEq, Eq, Structural)]
pub struct BlockRequest {
    pub start: BlockBegin,
    pub length: u32,
}

/// The protocols that a handshake can name.
#[derive(Clone, Copy, Debug, PartialEq, Eq, Structural)]
pub enum Protocol {
    BitTorrent,
}

/// The bytes of the protocol name "BitTorrent protocol".
pub open spec fn protocol_name() -> Seq<u8> {
    seq![
        0x42u8, 0x69, 0x74, 0x54, 0x6f, 0x72, 0x72, 0x65, 0x6e, 0x74,
        0x20, 0x70, 0x72, 0x6f, 0x74, 0x6f, 0x63, 0x6f, 0x6c,
    ]
}

impl Protocol {
    /// The name that a handshake carries for the protocol.
    pub fn to_string(&self) -> (r: &str)
        ensures
            r.spec_bytes() == protocol_name(),
    {
        let name = "BitTorrent protocol";
        proof {
            reveal_strlit("BitTorrent protocol");
            vstd::string::is_ascii_spec_bytes(name);
            assert(name.spec_bytes() =~= protocol_name());
        }
        name
    }
}

/// A text that is not the forty-digit hexadecimal form of a swarm id.
#[derive(Debug)]
pub struct InfoHashParseError {
    _priv: (),
}

/// The twenty-byte identifier of a swarm.
#[derive(Clone, Copy, Debug)]
pub struct InfoHash {
    pub bytes: [u8; 20],
}

impl InfoHash {
    /// The identifier held by exactly twenty bytes.
    pub fn from_bytes(val: &[u8]) -> (r: Option<InfoHash>)
        ensures
            r is Some <==> val@.len() == 20,
            r matches Some(h) ==> h.bytes@ == val@,
    {
        if val.len() == 20 {
            Some(InfoHash { bytes: to_fixed_size_hash_bytes(val) })
        } else {
            None
        }
    }

    /// The forty lowercase hexadecimal digits of the identifier.
    pub fn to_string(&self) -> (r: String)
        ensures
            r@ == hex_text(self.bytes@),
    {
        hex_of(self.bytes.as_slice())
    }

    /// The identifier written as forty hexadecimal digits, of either case.
    pub fn from_str(val: &str) -> (r: Result<InfoHash, InfoHashParseError>)
        ensures
            r is Ok <==> val.spec_bytes().len() == 40 && forall|i: int|
                0 <= i < 40 ==> is_hex_digit(#[trigger] val.spec_bytes()[i]),
            r matches Ok(h) ==> h.bytes@ == hex_pairs(val.spec_bytes()),
    {
        if val.as_bytes().len() != 40 {
            return Err(InfoHashParseError { _priv: () });
        }
        let decoded = bytes_of_hex(val);
        proof {
            lemma_hex_unblanked(val.spec_bytes());
        }
        match decoded {
            Some(as_vec) => {
                if as_vec.len() != 20 {
                    return Err(InfoHashParseError { _priv: () });
                }
                Ok(InfoHash { bytes: to_fixed_size_hash_bytes(as_vec.as_slice()) })
            },
            None => Err(InfoHashParseError { _priv: () }),
        }
    }
}

/// Skipping blanks keeps every byte exactly when there is no blank, and keeps
/// every digit.
proof fn lemma_hex_unblanked(s: Seq<u8>)
    ensures
        hex_unblanked(s).len() <= s.len(),
        hex_unblanked(s).len() == s.len() ==> hex_unblanked(s) == s,
        (forall|i: int| 0 <= i < s.len() ==> is_hex_digit(#[trigger] s[i])) ==> hex_unblanked(s)
            == s,
    decreases s.len(),
{
    reveal(Seq::filter);
    if s.len() > 0 {
        let init = s.drop_last();
        let last = s.last();
        lemma_hex_unblanked(init);
        assert(s =~= init.push(last));
        if !is_hex_blank(last) {
            assert(hex_unblanked(s) == hex_unblanked(init).push(last));
            if hex_unblanked(init).len() == init.len() {
                assert(hex_unblanked(s) =~= s);
            }
        } else {
            assert(hex_unblanked(s) == hex_unblanked(init));
            assert(!is_hex_digit(last));
        }
        if (forall|i: int| 0 <= i < s.len() ==> is_hex_digit(#[trigger] s[i])) {
            assert forall|i: int| 0 <= i < init.len() implies is_hex_digit(#[trigger] init[i]) by {
                assert(init[i] == s[i]);
            }
            assert(is_hex_digit(s[s.len() - 1]));
        }
    } else {
        assert(hex_unblanked(s) =~= s);
    }
}

/// A text that is not a twenty-byte peer id.
#[derive(Debug)]
pub struct PeerIdParseError {
    _priv: (),
}

/// The twenty-byte identifier of a peer. Its bytes are meant to be valid
/// UTF-8, so that it has a textual form.
#[derive(Clone, Copy, Debug)]
pub struct PeerId {
    pub bytes: [u8; 20],
}

impl PeerId {
    /// The identifier held by exactly twenty bytes that are valid UTF-8.
    pub fn from_bytes(bytes: &[u8]) -> (r: Option<PeerId>)
        ensures
            r is Some <==> bytes@.len() == 20 && valid_utf8(bytes@),
            r matches Some(p) ==> p.bytes@ == bytes@,
    {
        if bytes.len() == 20 {
            match text_of_utf8(bytes) {
                None => return None,
                Some(_) => {},
            }
            Some(PeerId { bytes: to_fixed_size_hash_bytes(bytes) })
        } else {
            None
        }
    }

    /// The text that the identifier's bytes spell.
    pub fn to_string(&self) -> (r: String)
        requires
            valid_utf8(self.bytes@),
        ensures
            r@ == decode_utf8(self.bytes@),
    {
        match text_of_utf8(self.bytes.as_slice()) {
            Some(s) => s,
            None => String::new(),
        }
    }

    /// The identifier whose bytes are the UTF-8 form of a text of twenty bytes.
    pub fn from_str(val: &str) -> (r: Result<PeerId, PeerIdParseError>)
        ensures
            r is Ok <==> val.spec_bytes().len() == 20,
            r matches Ok(p) ==> p.bytes@ == val.spec_bytes(),
    {
        let as_bytes = val.as_bytes();
        if as_bytes.len() != 20 {
            return Err(PeerIdParseError { _priv: () });
        }
        Ok(PeerId { bytes: to_fixed_size_hash_bytes(as_bytes) })
    }
}

} // verus!
