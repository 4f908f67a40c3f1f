//! A streaming decoder for zlib streams and the DEFLATE data inside them.
//!
//! A decoder is fed with the bytes of a stream as they arrive and read into buffers of
//! any size. It keeps in memory the bytes that it has not read yet and the last 32 KiB of
//! its output, never all of either.
//!
//! - [`source`] and [`bit`]: the bytes that have arrived, read byte by byte or bit by bit.
//! - [`huffman`]: canonical prefix-code tables.
//! - [`alphabet`], [`dynamic_tables`], [`compressed_block_reader`]: compressed blocks.
//! - [`inflate`]: the deflate decoder, a state machine over the blocks of a stream.
//! - [`zlib_decoder`] and [`adler32`]: the zlib container and its checksum.
//! - [`stream`]: what a decoder is going to put out, and the proof that its reads put out
//!   just that, whatever the buffers and however the data arrives.
//! - [`stored`]: the proof that a stream of stored blocks is decoded to what it holds.

use vstd::prelude::*;

pub mod adler32;
pub mod alphabet;
pub mod bit;
pub mod compressed_block_reader;
pub mod dynamic_tables;
pub mod error;
pub mod huffman;
pub mod inflate;
pub mod source;
pub mod stored;
pub mod stream;
pub mod zlib_decoder;

pub use crate::error::Error;
pub use crate::source::ByteSource;
pub use crate::zlib_decoder::ZlibDecoder;

verus! {

/// Fills the whole of `output` with the next bytes of `reader`. If the source ends first,
/// the error is `UnexpectedEof`.
pub fn read_all(reader: &mut ByteSource, output: &mut [u8]) -> (result: Result<(), Error>)
    requires
        old(reader).wf(),
    ensures
        final(reader).wf(),
        final(reader).same_stream(*old(reader)),
        final(output)@.len() == old(output)@.len(),
        match result {
            Ok(()) => {
                &&& old(output)@.len() <= old(reader).remaining().len()
                &&& final(output)@ == old(reader).remaining().take(old(output)@.len() as int)
                &&& final(reader).position() == old(reader).position() + old(output)@.len()
            },
            Err(e) => {
                &&& e == Error::UnexpectedEof
                &&& old(output)@.len() > old(reader).remaining().len()
                &&& final(reader).position() == old(reader).bytes().len()
            },
        },
{
    let n = reader.read(output);
    if n == output.len() {
        proof {
            assert(output@ =~= old(reader).remaining().take(old(output)@.len() as int));
        }
        Ok(())
    } else {
        Err(Error::UnexpectedEof)
    }
}

} // verus!
