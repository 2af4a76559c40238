//! Byte streams: what comes in from a connection and what goes out to one.

use vstd::prelude::*;
use vstd::string::*;
use vstd::utf8::*;

verus! {

/// The I/O errors of the standard library.
#[verifier::external_type_specification]
#[verifier::external_body]
pub struct ExIoError(std::io::Error);

/// The outcome of one read from a connection: the bytes that arrived, none where the other
/// side has hung up.
pub type Incoming = Result<Vec<u8>, std::io::Error>;

/// The model of a read.
pub type IncomingModel = Result<Seq<u8>, std::io::Error>;

/// The model of the outcome of a read.
pub open spec fn incoming(read: Incoming) -> IncomingModel {
    match read {
        Ok(bytes) => Ok(bytes@),
        Err(error) => Err(error),
    }
}

/// All bytes that a series of reads brought in.
pub open spec fn total(reads: Seq<IncomingModel>) -> Seq<u8>
    decreases reads.len(),
{
    if reads.len() == 0 {
        Seq::empty()
    } else {
        match reads.last() {
            Ok(bytes) => total(reads.drop_last()) + bytes,
            Err(_) => total(reads.drop_last()),
        }
    }
}

/// The bytes of a buffer behind its first `len`.
pub open spec fn behind(buffer: Seq<u8>, len: nat) -> Seq<u8> {
    if len <= buffer.len() {
        buffer.skip(len as int)
    } else {
        Seq::empty()
    }
}

/// The end of a line.
pub open spec fn crlf() -> Seq<u8> {
    seq![13u8, 10u8]
}

/// Adds bytes to the end of an output.
pub(crate) fn put_bytes(stream: &mut Vec<u8>, bytes: &[u8])
    ensures
        final(stream)@ == old(stream)@ + bytes@,
{
    stream.extend_from_slice(bytes);
    assert(stream@ =~= old(stream)@ + bytes@);
}

/// Adds text to the end of an output.
pub(crate) fn put_text(stream: &mut Vec<u8>, text: &str)
    ensures
        final(stream)@ == old(stream)@ + encode_utf8(text@),
{
    put_bytes(stream, text.as_bytes());
}

/// Ends a line of an output.
pub(crate) fn put_crlf(stream: &mut Vec<u8>)
    ensures
        final(stream)@ == old(stream)@ + crlf(),
{
    stream.push(13);
    stream.push(10);
    assert(stream@ =~= old(stream)@ + crlf());
}

} // verus!
