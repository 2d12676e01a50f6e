//! The length-prefixed binary message the demo client and server exchange:
//! two little-endian integer fields, then the byte length of the text
//! field, then its UTF-8 bytes. Serialization and deserialization are
//! exact inverses of one another.
use vstd::prelude::*;

use vstd::arithmetic::div_mod::lemma_fundamental_div_mod_converse;

verus! {

/// Why a message could not be produced or read.
#[derive(PartialEq, Eq, Structural, Clone, Copy, Debug)]
pub enum DataError {
    /// The text field's UTF-8 form does not fit the 32-bit length prefix.
    TooLong,
    /// The input ended before the message did.
    UnexpectedEnd,
    /// The text field's bytes are not valid UTF-8.
    InvalidUtf8,
}

/// The message: two numeric fields and a text field.
#[derive(Debug)]
pub struct Data {
    pub field1: u32,
    pub field2: u16,
    pub field3: String,
}

/// The UTF-8 encoding of a string: a function of its characters alone.
pub uninterp spec fn utf8_bytes(s: Seq<char>) -> Seq<u8>;

/// Relies on `str::as_bytes`: the UTF-8 bytes of the string, a function of
/// its characters alone.
#[verifier::external_body]
fn string_to_bytes(s: &String) -> (r: Vec<u8>)
    ensures
        r@ == utf8_bytes(s@),
{
    s.as_bytes().to_vec()
}

/// Relies on `String::from_utf8`: it succeeds exactly on valid UTF-8, and
/// returns the one string those bytes spell — any string whose UTF-8 form
/// is these bytes is that string, since a string's encoding determines its
/// characters. `None` means no string at all has these bytes as its
/// encoding.
#[verifier::external_body]
fn string_from_bytes(b: Vec<u8>) -> (r: Option<String>)
    ensures
        r matches Some(s) ==> utf8_bytes(s@) == b@ && (forall|s0: Seq<char>|
            #[trigger] utf8_bytes(s0) == b@ ==> s0 == s@),
        r is None ==> !(exists|s0: Seq<char>| #[trigger] utf8_bytes(s0) == b@),
{
    String::from_utf8(b).ok()
}

/// A 16-bit value as two little-endian bytes.
pub open spec fn le16(x: u16) -> Seq<u8> {
    seq![(x % 256) as u8, (x / 256) as u8]
}

/// A 32-bit value as four little-endian bytes.
pub open spec fn le32(x: u32) -> Seq<u8> {
    seq![
        (x % 256) as u8,
        ((x / 256) % 256) as u8,
        ((x / 65536) % 256) as u8,
        (x / 16777216) as u8,
    ]
}

/// The 32-bit value four little-endian bytes spell.
pub open spec fn dec32(b0: u8, b1: u8, b2: u8, b3: u8) -> int {
    b0 + 256 * b1 + 65536 * b2 + 16777216 * b3
}

/// The 16-bit value two little-endian bytes spell.
pub open spec fn dec16(b0: u8, b1: u8) -> int {
    b0 + 256 * b1
}

/// The serialized form: `field1`, `field2`, the payload's length, each
/// little-endian, then the payload — the text field's UTF-8 bytes.
pub open spec fn spec_serialize(field1: u32, field2: u16, payload: Seq<u8>) -> Seq<u8> {
    le32(field1) + le16(field2) + le32(payload.len() as u32) + payload
}

/// The value four bytes spell encodes back to those bytes.
pub proof fn lemma_le32_of_bytes(b0: u8, b1: u8, b2: u8, b3: u8)
    ensures
        0 <= dec32(b0, b1, b2, b3) <= u32::MAX,
        le32(dec32(b0, b1, b2, b3) as u32) == seq![b0, b1, b2, b3],
{
    let x = dec32(b0, b1, b2, b3);
    lemma_fundamental_div_mod_converse(x, 256, b1 + 256 * b2 + 65536 * b3, b0 as int);
    lemma_fundamental_div_mod_converse(b1 + 256 * b2 + 65536 * b3, 256, b2 + 256 * b3, b1 as int);
    lemma_fundamental_div_mod_converse(b2 + 256 * b3, 256, b3 as int, b2 as int);
    lemma_fundamental_div_mod_converse(x, 65536, b2 + 256 * b3, b0 + 256 * b1);
    lemma_fundamental_div_mod_converse(x, 16777216, b3 as int, b0 + 256 * b1 + 65536 * b2);
    assert(le32(x as u32) =~= seq![b0, b1, b2, b3]);
}

/// The value two bytes spell encodes back to those bytes.
pub proof fn lemma_le16_of_bytes(b0: u8, b1: u8)
    ensures
        0 <= dec16(b0, b1) <= u16::MAX,
        le16(dec16(b0, b1) as u16) == seq![b0, b1],
{
    let x = dec16(b0, b1);
    lemma_fundamental_div_mod_converse(x, 256, b1 as int, b0 as int);
    assert(le16(x as u16) =~= seq![b0, b1]);
}

impl Data {
    /// Serialize the message. Fails only when the text field's UTF-8 form
    /// is longer than the 32-bit length prefix can say; otherwise the
    /// result is exactly the message's serialized form.
    pub fn serialize(&self) -> (r: Result<Vec<u8>, DataError>)
        ensures
            utf8_bytes(self.field3@).len() <= u32::MAX ==> (r matches Ok(out) && out@
                == spec_serialize(self.field1, self.field2, utf8_bytes(self.field3@))),
            utf8_bytes(self.field3@).len() > u32::MAX ==> r == Err::<Vec<u8>, DataError>(
                DataError::TooLong,
            ),
    {
        let payload = string_to_bytes(&self.field3);
        if payload.len() > u32::MAX as usize {
            return Err(DataError::TooLong);
        }
        let n = payload.len() as u32;
        let mut out: Vec<u8> = Vec::new();
        out.push((self.field1 % 256) as u8);
        out.push(((self.field1 / 256) % 256) as u8);
        out.push(((self.field1 / 65536) % 256) as u8);
        out.push((self.field1 / 16777216) as u8);
        out.push((self.field2 % 256) as u8);
        out.push((self.field2 / 256) as u8);
        out.push((n % 256) as u8);
        out.push(((n / 256) % 256) as u8);
        out.push(((n / 65536) % 256) as u8);
        out.push((n / 16777216) as u8);
        let mut i: usize = 0;
        while i < payload.len()
            invariant
                i <= payload.len(),
                payload@ == utf8_bytes(self.field3@),
                payload@.len() <= u32::MAX,
                n == payload@.len(),
                out@.len() == 10 + i,
                out@.subrange(0, 10) == le32(self.field1) + le16(self.field2) + le32(n),
                out@.subrange(10, out@.len() as int) == payload@.subrange(0, i as int),
            decreases payload.len() - i,
        {
            let b = payload[i];
            out.push(b);
            proof {
                assert(out@.subrange(0, 10) =~= out@.drop_last().subrange(0, 10));
                assert(out@.subrange(10, out@.len() as int) =~= payload@.subrange(
                    0,
                    i as int + 1,
                ));
            }
            i = i + 1;
        }
        proof {
            assert(out@.subrange(10, out@.len() as int) =~= payload@);
            assert(out@ =~= out@.subrange(0, 10) + out@.subrange(10, out@.len() as int));
        }
        Ok(out)
    }

    /// Read one message from `bytes`, beginning at `start`; trailing bytes
    /// are left for the next read. On success the message and the position
    /// just past it are returned, and the consumed range is exactly the
    /// message's serialized form. The read fails with `UnexpectedEnd`
    /// exactly when the input ends before the header or the payload does,
    /// and with `InvalidUtf8` exactly when the payload is not the UTF-8
    /// form of any string.
    pub fn deserialize(bytes: &Vec<u8>, start: usize) -> (r: Result<(Data, usize), DataError>)
        ensures
            r is Err ==> r == Err::<(Data, usize), DataError>(DataError::UnexpectedEnd) || r
                == Err::<(Data, usize), DataError>(DataError::InvalidUtf8),
            r matches Ok(p) ==> {
                let d = p.0;
                let end = p.1;
                &&& start + 10 <= end <= bytes@.len()
                &&& utf8_bytes(d.field3@).len() <= u32::MAX
                &&& bytes@.subrange(start as int, end as int) == spec_serialize(
                    d.field1,
                    d.field2,
                    utf8_bytes(d.field3@),
                )
                &&& end == start + 10 + utf8_bytes(d.field3@).len()
                &&& forall|s0: Seq<char>|
                    #[trigger] utf8_bytes(s0) == utf8_bytes(d.field3@) ==> s0 == d.field3@
            },
            r == Err::<(Data, usize), DataError>(DataError::UnexpectedEnd) <==> bytes@.len()
                < start + 10 || bytes@.len() < start + 10 + dec32(
                bytes@[start + 6],
                bytes@[start + 7],
                bytes@[start + 8],
                bytes@[start + 9],
            ),
            r == Err::<(Data, usize), DataError>(DataError::InvalidUtf8) <==> bytes@.len() >= start
                + 10 + dec32(bytes@[start + 6], bytes@[start + 7], bytes@[start + 8], bytes@[start
                + 9]) && !(exists|s0: Seq<char>|
                #[trigger] utf8_bytes(s0) == bytes@.subrange(
                    start + 10,
                    start + 10 + dec32(
                        bytes@[start + 6],
                        bytes@[start + 7],
                        bytes@[start + 8],
                        bytes@[start + 9],
                    ),
                )),
    {
        if bytes.len() < 10 || start > bytes.len() - 10 {
            return Err(DataError::UnexpectedEnd);
        }
        let field1 = (bytes[start] as u32) + 256 * (bytes[start + 1] as u32) + 65536 * (bytes[start
            + 2] as u32) + 16777216 * (bytes[start + 3] as u32);
        let field2 = (bytes[start + 4] as u16) + 256 * (bytes[start + 5] as u16);
        let n32 = (bytes[start + 6] as u32) + 256 * (bytes[start + 7] as u32) + 65536 * (bytes[start
            + 8] as u32) + 16777216 * (bytes[start + 9] as u32);
        let n = n32 as usize;
        let avail = bytes.len() - start - 10;
        if n > avail {
            return Err(DataError::UnexpectedEnd);
        }
        let base = start + 10;
        let mut payload: Vec<u8> = Vec::new();
        let mut i: usize = 0;
        while i < n
            invariant
                i <= n,
                base == start + 10,
                base + n <= bytes@.len(),
                bytes@.len() <= usize::MAX,
                payload@ == bytes@.subrange(start + 10, start + 10 + i),
            decreases n - i,
        {
            let b = bytes[base + i];
            payload.push(b);
            proof {
                assert(payload@ =~= bytes@.subrange(start + 10, start + 10 + i + 1));
            }
            i = i + 1;
        }
        proof {
            assert(payload@ == bytes@.subrange(start + 10, start + 10 + n));
        }
        match string_from_bytes(payload) {
            Some(field3) => {
                let d = Data { field1, field2, field3 };
                let end = start + 10 + n;
                proof {
                    lemma_le32_of_bytes(
                        bytes@[start as int],
                        bytes@[start + 1],
                        bytes@[start + 2],
                        bytes@[start + 3],
                    );
                    lemma_le16_of_bytes(bytes@[start + 4], bytes@[start + 5]);
                    lemma_le32_of_bytes(
                        bytes@[start + 6],
                        bytes@[start + 7],
                        bytes@[start + 8],
                        bytes@[start + 9],
                    );
                    assert(bytes@.subrange(start as int, end as int) =~= spec_serialize(
                        d.field1,
                        d.field2,
                        utf8_bytes(d.field3@),
                    ));
                }
                Ok((d, end))
            },
            None => Err(DataError::InvalidUtf8),
        }
    }
}

} // verus!
