//! Frames on the wire: a line and the delimiter that ends it.
//!
//! The splitting and the UTF-8 check are those of `asynchronous_codec::LinesCodec`;
//! the two functions that call it are the only code of this crate whose
//! contracts are taken on trust.

use crate::line::NEWLINE;
use asynchronous_codec::{BytesMut, Decoder, Encoder, LinesCodec};
use vstd::prelude::*;
use vstd::utf8::*;

verus! {

/// The index of the first delimiter in `s`, or the length of `s` where it holds none.
pub open spec fn delimiter_at(s: Seq<u8>) -> int
    decreases s.len(),
{
    if s.len() == 0 || s[0] == NEWLINE {
        0
    } else {
        1 + delimiter_at(s.drop_first())
    }
}

/// Whether `s` holds a whole frame, that is, a delimiter.
pub open spec fn has_frame(s: Seq<u8>) -> bool {
    delimiter_at(s) < s.len()
}

/// The first frame of `s`, delimiter included.
pub open spec fn first_frame(s: Seq<u8>) -> Seq<u8>
    recommends
        has_frame(s),
{
    s.take(delimiter_at(s) + 1)
}

/// What follows the first frame of `s`.
pub open spec fn after_frame(s: Seq<u8>) -> Seq<u8>
    recommends
        has_frame(s),
{
    s.skip(delimiter_at(s) + 1)
}

/// `delimiter_at` is the least index that holds a delimiter.
pub proof fn lemma_delimiter_at(s: Seq<u8>)
    ensures
        0 <= delimiter_at(s) <= s.len(),
        forall|i: int| 0 <= i < delimiter_at(s) ==> s[i] != NEWLINE,
        has_frame(s) ==> s[delimiter_at(s)] == NEWLINE,
    decreases s.len(),
{
    if s.len() == 0 || s[0] == NEWLINE {
    } else {
        let t = s.drop_first();
        lemma_delimiter_at(t);
        assert forall|i: int| 0 <= i < delimiter_at(s) implies s[i] != NEWLINE by {
            if i > 0 {
                assert(s[i] == t[i - 1]);
            }
        }
        if has_frame(s) {
            assert(s[delimiter_at(s)] == t[delimiter_at(t)]);
        }
    }
}

/// The error of the outside codec, carried through unread.
#[verifier::external_type_specification]
#[verifier::external_body]
pub struct ExIoError(std::io::Error);

/// Calls `LinesCodec::decode` on the bytes of `buf`.
///
/// Trusted: where `buf` holds no delimiter the codec returns `Ok(None)` and
/// leaves the bytes alone. Otherwise it removes the first frame, delimiter
/// included, and returns it where it is well-formed UTF-8, an error where it
/// is not; the frame is gone from `buf` either way.
#[verifier::external_body]
pub(crate) fn decode_frame(buf: &mut Vec<u8>) -> (r: Result<Option<Vec<u8>>, std::io::Error>)
    ensures
        has_frame(old(buf)@) ==> final(buf)@ == after_frame(old(buf)@),
        !has_frame(old(buf)@) ==> final(buf)@ == old(buf)@,
        match r {
            Ok(None) => !has_frame(old(buf)@),
            Ok(Some(frame)) => {
                &&& has_frame(old(buf)@)
                &&& valid_utf8(first_frame(old(buf)@))
                &&& frame@ == first_frame(old(buf)@)
            },
            Err(_) => has_frame(old(buf)@) && !valid_utf8(first_frame(old(buf)@)),
        },
{
    let mut src = BytesMut::from(&buf[..]);
    let decoded = LinesCodec.decode(&mut src);
    *buf = src.to_vec();
    match decoded {
        Ok(Some(frame)) => Ok(Some(frame.into_bytes())),
        Ok(None) => Ok(None),
        Err(e) => Err(e),
    }
}

/// Calls `LinesCodec::encode` with the text that `frame` spells.
///
/// Trusted: the codec appends the bytes of the text to the buffer, adds
/// nothing of its own, and always succeeds.
#[verifier::external_body]
pub(crate) fn encode_frame(frame: &Vec<u8>, dst: &mut Vec<u8>) -> (r: Result<(), std::io::Error>)
    requires
        valid_utf8(frame@),
    ensures
        r is Ok,
        final(dst)@ == old(dst)@ + frame@,
{
    let item = String::from_utf8_lossy(frame).into_owned();
    let mut out = BytesMut::new();
    let r = LinesCodec.encode(item, &mut out);
    dst.extend_from_slice(&out);
    r
}

} // verus!
