//! The four-byte header that tells serialized data apart.
use crate::data::{str_from_utf8, Error, Result};
use vstd::prelude::*;

verus! {

use vstd::utf8::{decode_utf8, valid_utf8};

/// Header of serialized data, used to tell apart serialized scope collections and
/// frame data.
#[derive(Debug, Clone, Copy)]
pub struct DataHeader(pub [u8; 4]);

impl DataHeader {
    /// Reads a header from the front of `read`, advancing it past the four bytes.
    /// When fewer than four bytes remain, the stream ended prematurely, and what
    /// remained is consumed.
    pub fn try_read(read: &mut &[u8]) -> (r: Result<Self>)
        ensures
            old(read)@.len() < 4 ==> r == Err::<Self, Error>(Error::PrematureEnd) && final(read)@
                == Seq::<u8>::empty(),
            old(read)@.len() >= 4 ==> (r matches Ok(h) && h.0@ == old(read)@.take(4)
                && final(read)@ == old(read)@.skip(4)),
    {
        let bytes: &[u8] = *read;
        if bytes.len() < 4 {
            *read = vstd::slice::slice_subrange(bytes, bytes.len(), bytes.len());
            return Err(Error::PrematureEnd);
        }
        let header = [bytes[0], bytes[1], bytes[2], bytes[3]];
        *read = vstd::slice::slice_subrange(bytes, 4, bytes.len());
        proof {
            assert(header@ =~= bytes@.take(4));
        }
        Ok(DataHeader(header))
    }

    /// Return a slice containing the entire header.
    pub fn as_slice(&self) -> (r: &[u8])
        ensures
            r@ == self.0@,
    {
        self.0.as_slice()
    }

    /// Return the header as array.
    pub fn bytes(&self) -> (r: [u8; 4])
        ensures
            r == self.0,
    {
        self.0
    }

    /// The header as text: its bytes when they are UTF-8, else `????`.
    pub fn to_text(&self) -> (r: String)
        ensures
            valid_utf8(self.0@) ==> r@ == decode_utf8(self.0@),
            !valid_utf8(self.0@) ==> r@ == "????"@,
    {
        match str_from_utf8(self.0.as_slice()) {
            Ok(s) => {
                proof {
                    vstd::utf8::encode_utf8_decode_utf8(s@);
                }
                s.to_owned()
            },
            Err(_) => "????".to_owned(),
        }
    }

    /// Whether the header consists of the given bytes.
    pub fn is(&self, other: &[u8]) -> (r: bool)
        ensures
            r == (self.0@ == other@),
    {
        if other.len() != 4 {
            proof {
                assert(self.0@.len() == 4);
            }
            return false;
        }
        let r = self.0[0] == other[0] && self.0[1] == other[1] && self.0[2] == other[2]
            && self.0[3] == other[3];
        proof {
            if r {
                assert(self.0@ =~= other@);
            }
        }
        r
    }
}

} // verus!
