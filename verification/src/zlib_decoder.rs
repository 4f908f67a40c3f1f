//! The zlib container: a header, a deflate stream, and a checksum of the decoded bytes.

use crate::adler32::{adler32, feed_sums, initial_sums, lemma_feed_concat, Adler32};
use crate::alphabet::is_final;
use crate::error::Error;
use crate::inflate::{inflate_read, lemma_inflate_read, Inflater, InflaterModel, Phase};
use crate::read_all;
use crate::source::ByteSource;
use vstd::prelude::*;
use vstd::slice::slice_subrange;

verus! {

/// What the decoder is doing.
pub enum Stage {
    /// It has not started yet; the header is at byte position `at`.
    Start { at: nat },
    /// It is decoding the deflate stream, and the deflate decoder is in `phase`.
    CompressedData { phase: Phase },
    /// The deflate stream has ended; the checksum is at byte position `at`.
    Checksum { at: nat },
    /// The checksum has been read and found right; it ended before byte position `at`.
    Eof { at: nat },
    /// A read has failed.
    Poisoned,
}

/// What a zlib decoder is: the data that has arrived, whether that is the whole stream,
/// what the decoder is doing, and all the bytes it has put out since it was made.
pub struct ZlibModel {
    pub data: Seq<u8>,
    pub complete: bool,
    pub stage: Stage,
    pub produced: Seq<u8>,
}

/// What a read does: the decoder after it, the bytes that it puts out, and the error, if
/// it fails.
pub struct ZlibOutcome {
    pub model: ZlibModel,
    pub out: Seq<u8>,
    pub error: Option<Error>,
}

/// The byte position of the deflate stream behind the zlib header at byte position `at`.
///
/// The header is two bytes. The low four bits of the first name the method, which must
/// be 8, and its high four bits the window, which must be 7. The two bytes, read as one
/// number with the first byte high, must be a multiple of 31. If bit 5 of the second byte
/// is set, the four bytes of a dictionary identifier follow, which are skipped.
pub open spec fn zlib_header_at(data: Seq<u8>, at: nat) -> Result<nat, Error> {
    if at + 2 > data.len() {
        Err(Error::UnexpectedEof)
    } else {
        let cmf = data[at as int] as nat;
        let flg = data[at as int + 1] as nat;
        if cmf % 16 != 8 {
            Err(Error::UnsupportedMethod)
        } else if cmf / 16 != 7 {
            Err(Error::UnsupportedWindow)
        } else if (cmf * 256 + flg) % 31 != 0 {
            Err(Error::HeaderChecksum)
        } else if (flg / 32) % 2 == 1 {
            if at + 6 > data.len() {
                Err(Error::UnexpectedEof)
            } else {
                Ok(at + 6)
            }
        } else {
            Ok(at + 2)
        }
    }
}

/// The checksum that is stored at byte position `at`: four bytes, the highest first.
pub open spec fn trailer_at(data: Seq<u8>, at: nat) -> Result<nat, Error> {
    if at + 4 > data.len() {
        Err(Error::UnexpectedEof)
    } else {
        Ok(
            data[at as int] as nat * 0x100_0000 + data[at as int + 1] as nat * 0x1_0000 + data[at
                as int + 2] as nat * 0x100 + data[at as int + 3] as nat,
        )
    }
}

impl Stage {
    /// How many stages lie ahead.
    pub open spec fn rank(self) -> nat {
        match self {
            Stage::Start { .. } => 3,
            Stage::CompressedData { .. } => 2,
            Stage::Checksum { .. } => 1,
            _ => 0,
        }
    }
}

impl ZlibModel {
    /// The model of the deflate decoder while it is in `phase`.
    pub open spec fn inflater(self, phase: Phase) -> InflaterModel {
        InflaterModel {
            data: self.data,
            complete: self.complete,
            phase,
            history: self.produced,
        }
    }

    /// The deflate decoder is well formed, and at the end the stored checksum is the
    /// Adler-32 checksum of all that was put out.
    pub open spec fn well_formed(self) -> bool {
        match self.stage {
            Stage::CompressedData { phase } => self.inflater(phase).well_formed(),
            Stage::Eof { at } => at >= 4 && trailer_at(self.data, (at - 4) as nat) == Ok::<
                nat,
                Error,
            >(adler32(self.produced)),
            _ => true,
        }
    }

    /// The same decoder at another stage.
    pub open spec fn at_stage(self, stage: Stage) -> ZlibModel {
        ZlibModel { stage, ..self }
    }

    /// A read that fails with `e`: nothing is put out, and the decoder is poisoned.
    pub open spec fn failed(self, e: Error) -> ZlibOutcome {
        ZlibOutcome { model: self.at_stage(Stage::Poisoned), out: Seq::empty(), error: Some(e) }
    }

    /// The data ended too early for what `e` says was being read, and more is to come.
    pub open spec fn starved(self, e: Error) -> bool {
        !self.complete && e.is_end_of_data()
    }

    /// A read that stops at `stage` for want of data: nothing is put out, and the decoder
    /// goes on from there once more data has arrived.
    pub open spec fn waiting(self, stage: Stage) -> ZlibOutcome {
        ZlibOutcome {
            model: self.at_stage(stage),
            out: Seq::empty(),
            error: Some(Error::NeedInput),
        }
    }

    /// A read that puts out `out` and leaves the decoder at `stage`.
    pub open spec fn produced(self, stage: Stage, out: Seq<u8>) -> ZlibOutcome {
        ZlibOutcome {
            model: ZlibModel { stage, produced: self.produced + out, ..self },
            out,
            error: None,
        }
    }
}

/// What a read into a buffer of `cap` bytes does.
///
/// A poisoned decoder fails. Otherwise a buffer without room gets nothing, and changes
/// nothing. Otherwise the decoder goes on until it has put out at least one byte, or has
/// found the checksum right, or fails, or waits for data:
/// - at the start, it reads the header;
/// - in the deflate stream, it puts out what the deflate decoder gives; if that is
///   nothing, the deflate stream is over;
/// - behind the deflate stream, it reads the checksum, and fails unless it is the
///   Adler-32 checksum of all that was put out;
/// - after that, it puts out nothing.
///
/// Where the data ends too early, the read fails only if the stream is complete. If it
/// is not, the read asks for input, and the decoder stays in front of what it could not
/// read.
#[verifier::rlimit(50)]
pub open spec fn zlib_read(model: ZlibModel, cap: nat) -> ZlibOutcome
    decreases model.stage.rank(),
{
    match model.stage {
        Stage::Poisoned => model.failed(Error::Poisoned),
        Stage::Eof { .. } => model.produced(model.stage, Seq::empty()),
        Stage::Start { at } => if cap == 0 {
            model.produced(model.stage, Seq::empty())
        } else {
            match zlib_header_at(model.data, at) {
                Err(e) => if model.starved(e) {
                    model.waiting(model.stage)
                } else {
                    model.failed(e)
                },
                Ok(next) => zlib_read(
                    model.at_stage(
                        Stage::CompressedData { phase: Phase::BeforeBlockStart { pos: 8 * next } },
                    ),
                    cap,
                ),
            }
        },
        Stage::CompressedData { phase } => if cap == 0 {
            model.produced(model.stage, Seq::empty())
        } else {
            let inner = inflate_read(model.inflater(phase), cap);
            match inner.error {
                Some(e) => if e == Error::NeedInput {
                    model.waiting(Stage::CompressedData { phase: inner.model.phase })
                } else {
                    model.failed(e)
                },
                None => if inner.out.len() == 0 {
                    match inner.model.phase {
                        Phase::Eof { at } => zlib_read(model.at_stage(Stage::Checksum { at }), cap),
                        _ => model.failed(Error::Poisoned),
                    }
                } else {
                    model.produced(Stage::CompressedData { phase: inner.model.phase }, inner.out)
                },
            }
        },
        Stage::Checksum { at } => if cap == 0 {
            model.produced(model.stage, Seq::empty())
        } else {
            match trailer_at(model.data, at) {
                Err(e) => if model.starved(e) {
                    model.waiting(model.stage)
                } else {
                    model.failed(e)
                },
                Ok(stored) => if stored == adler32(model.produced) {
                    model.produced(Stage::Eof { at: at + 4 }, Seq::empty())
                } else {
                    model.failed(Error::ChecksumMismatch)
                },
            }
        },
    }
}

/// A read leaves a well-formed decoder well formed, with the same data: so wherever a
/// stream was decoded to its end, the Adler-32 checksum of the output is the stored one.
/// If the read does not fail, the decoder has put out what it had, followed by what the
/// read put out; and a read into a buffer with room puts out nothing only at the end of
/// the stream. If it asks for input, the stream is not complete, and the decoder is not
/// poisoned unless it was. If it fails otherwise, the decoder is poisoned.
#[verifier::rlimit(50)]
pub proof fn lemma_zlib_read(model: ZlibModel, cap: nat)
    requires
        model.well_formed(),
    ensures
        zlib_read(model, cap).model.well_formed(),
        zlib_read(model, cap).model.data == model.data,
        zlib_read(model, cap).model.complete == model.complete,
        match zlib_read(model, cap).error {
            None => {
                &&& zlib_read(model, cap).model.produced == model.produced + zlib_read(
                    model,
                    cap,
                ).out
                &&& !(zlib_read(model, cap).model.stage is Poisoned)
                &&& cap > 0 && zlib_read(model, cap).out.len() == 0 ==> zlib_read(
                    model,
                    cap,
                ).model.stage is Eof
            },
            Some(e) => {
                &&& zlib_read(model, cap).model.produced == model.produced
                &&& zlib_read(model, cap).out.len() == 0
                &&& if e == Error::NeedInput {
                    !model.complete && !(zlib_read(model, cap).model.stage is Poisoned)
                } else {
                    zlib_read(model, cap).model.stage is Poisoned
                }
            },
        },
    decreases model.stage.rank(),
{
    assert(model.produced + Seq::<u8>::empty() =~= model.produced);
    match model.stage {
        Stage::Poisoned => {},
        Stage::Eof { .. } => {},
        Stage::Start { at } => if cap == 0 {
        } else {
            match zlib_header_at(model.data, at) {
                Err(e) => {},
                Ok(next) => {
                    lemma_zlib_read(
                        model.at_stage(
                            Stage::CompressedData {
                                phase: Phase::BeforeBlockStart { pos: 8 * next },
                            },
                        ),
                        cap,
                    );
                },
            }
        },
        Stage::CompressedData { phase } => if cap == 0 {
        } else {
            let inner = inflate_read(model.inflater(phase), cap);
            lemma_inflate_read(model.inflater(phase), cap);
            match inner.error {
                Some(e) => {},
                None => if inner.out.len() == 0 {
                    match inner.model.phase {
                        Phase::Eof { at } => {
                            lemma_zlib_read(model.at_stage(Stage::Checksum { at }), cap);
                        },
                        _ => {},
                    }
                } else {
                },
            }
        },
        Stage::Checksum { at } => {},
    }
}

/// Idempotence of the end: once a read into a buffer with room has put out nothing and
/// has not failed, every later read puts out nothing, does not fail, and leaves the
/// decoder as it is.
pub proof fn lemma_end_is_idempotent(model: ZlibModel, cap: nat, later: nat)
    requires
        model.well_formed(),
        cap > 0,
        zlib_read(model, cap).error is None,
        zlib_read(model, cap).out.len() == 0,
    ensures
        zlib_read(zlib_read(model, cap).model, later).error is None,
        zlib_read(zlib_read(model, cap).model, later).out.len() == 0,
        zlib_read(zlib_read(model, cap).model, later).model == zlib_read(model, cap).model,
{
    lemma_zlib_read(model, cap);
    let end = zlib_read(model, cap).model;
    assert(end.produced + Seq::<u8>::empty() =~= end.produced);
}

/// The checksum at the end: when a read into a buffer with room puts out nothing and
/// does not fail, the whole stream has been decoded, and the Adler-32 checksum of all
/// the bytes put out equals the value stored behind the deflate stream.
pub proof fn lemma_checksum_at_end(model: ZlibModel, cap: nat)
    requires
        model.well_formed(),
        cap > 0,
        zlib_read(model, cap).error is None,
        zlib_read(model, cap).out.len() == 0,
    ensures
        match zlib_read(model, cap).model.stage {
            Stage::Eof { at } => at >= 4 && trailer_at(model.data, (at - 4) as nat) == Ok::<
                nat,
                Error,
            >(adler32(zlib_read(model, cap).model.produced)),
            _ => false,
        },
{
    lemma_zlib_read(model, cap);
}

/// A header and a checksum read from the data that has arrived stay when more arrives,
/// and so does the verdict that the header is wrong.
pub proof fn lemma_frame_stable(data: Seq<u8>, more: Seq<u8>, at: nat)
    ensures
        is_final(zlib_header_at(data, at)) ==> zlib_header_at(data + more, at) == zlib_header_at(
            data,
            at,
        ),
        is_final(trailer_at(data, at)) ==> trailer_at(data + more, at) == trailer_at(data, at),
{
    let longer = data + more;
    if at + 2 <= data.len() {
        assert(longer[at as int] == data[at as int]);
        assert(longer[at as int + 1] == data[at as int + 1]);
    }
    if at + 4 <= data.len() {
        assert(longer[at as int + 2] == data[at as int + 2]);
        assert(longer[at as int + 3] == data[at as int + 3]);
    }
}

/// A well-formed decoder stays well formed when more data arrives.
pub proof fn lemma_well_formed_grows(model: ZlibModel, more: Seq<u8>)
    requires
        model.well_formed(),
    ensures
        (ZlibModel { data: model.data + more, ..model }).well_formed(),
{
    match model.stage {
        Stage::Eof { at } => {
            let data = model.data;
            let longer = data + more;
            if at >= 4 && at <= data.len() {
                assert(longer[at - 4] == data[at - 4]);
                assert(longer[at - 3] == data[at - 3]);
                assert(longer[at - 2] == data[at - 2]);
                assert(longer[at - 1] == data[at - 1]);
            }
        },
        _ => {},
    }
}

/// Consumes the Zlib header from the reader and checks that nothing is wrong with it.
fn consume_zlib_header(reader: &mut ByteSource) -> (result: Result<(), Error>)
    requires
        old(reader).wf(),
    ensures
        final(reader).wf(),
        final(reader).same_stream(*old(reader)),
        match result {
            Ok(()) => zlib_header_at(old(reader).bytes(), old(reader).position()) == Ok::<
                nat,
                Error,
            >(final(reader).position()),
            Err(e) => zlib_header_at(old(reader).bytes(), old(reader).position()) == Err::<
                nat,
                Error,
            >(e),
        },
{
    let ghost data = reader.bytes();
    let ghost at = reader.position();
    let mut header: Vec<u8> = Vec::new();
    header.push(0);
    header.push(0);
    read_all(reader, header.as_mut_slice())?;
    let cmf = header[0];
    let flg = header[1];
    proof {
        assert(header@[0] == data[at as int]);
        assert(header@[1] == data[at as int + 1]);
        assert((cmf & 0b1111) == cmf % 16) by (bit_vector);
        assert(((cmf >> 4) & 0b1111) == cmf / 16) by (bit_vector);
        assert(((flg & 0b00100000) != 0) == ((flg / 32) % 2 == 1)) by (bit_vector);
    }

    // checking compression method
    if (cmf & 0b1111) != 8 {
        return Err(Error::UnsupportedMethod);
    }

    // checking cinfo
    if ((cmf >> 4) & 0b1111) != 7 {
        return Err(Error::UnsupportedWindow);
    }

    // checking the value of `fcheck`
    if ((cmf as u16) * 256 + (flg as u16)) % 31 != 0 {
        return Err(Error::HeaderChecksum);
    }

    // if the `fdict` flag is set, there is a dictionnary ID afterwards here; no dictionary
    // can be given to the decoder, so the ID is skipped
    let fdict = (flg & 0b00100000) != 0;
    if fdict {
        let mut dict: Vec<u8> = Vec::new();
        dict.push(0);
        dict.push(0);
        dict.push(0);
        dict.push(0);
        read_all(reader, dict.as_mut_slice())?;
    }
    Ok(())
}

/// Reads the checksum that is stored where `reader` stands.
fn read_trailer(reader: &mut ByteSource) -> (result: Result<u32, Error>)
    requires
        old(reader).wf(),
    ensures
        final(reader).wf(),
        final(reader).same_stream(*old(reader)),
        match result {
            Ok(stored) => {
                &&& trailer_at(old(reader).bytes(), old(reader).position()) == Ok::<nat, Error>(
                    stored as nat,
                )
                &&& final(reader).position() == old(reader).position() + 4
            },
            Err(e) => trailer_at(old(reader).bytes(), old(reader).position()) == Err::<
                nat,
                Error,
            >(e),
        },
{
    let ghost data = reader.bytes();
    let ghost at = reader.position();
    let mut trailer: Vec<u8> = Vec::new();
    trailer.push(0);
    trailer.push(0);
    trailer.push(0);
    trailer.push(0);
    read_all(reader, trailer.as_mut_slice())?;
    let b0 = trailer[0] as u32;
    let b1 = trailer[1] as u32;
    let b2 = trailer[2] as u32;
    let b3 = trailer[3] as u32;
    proof {
        assert(trailer@[0] == data[at as int]);
        assert(trailer@[1] == data[at as int + 1]);
        assert(trailer@[2] == data[at as int + 2]);
        assert(trailer@[3] == data[at as int + 3]);
        assert((b0 << 24) | (b1 << 16) | (b2 << 8) | b3 == b0 * 0x100_0000 + b1 * 0x1_0000 + b2
            * 0x100 + b3) by (bit_vector)
            requires
                b0 < 256,
                b1 < 256,
                b2 < 256,
                b3 < 256,
        ;
    }
    Ok((b0 << 24) | (b1 << 16) | (b2 << 8) | b3)
}

#[allow(inconsistent_fields)]
enum ZlibDecoderState {
    // we haven't started doing anything yet
    Start {
        // naked reader where we will read the header from
        reader: ByteSource,
    },
    // we are currently reading compressed data
    CompressedData {
        // reader wrapper around the inflater
        reader: Inflater,
        // checksum of the bytes that were handed out
        adler: Adler32,
    },
    // the compressed data is over, and the checksum comes next
    Checksum {
        // naked reader where we will read the checksum from
        reader: ByteSource,
        // checksum of the bytes that were handed out
        adler: Adler32,
    },
    // the checksum was right
    Eof {
        // the reader, standing behind the checksum
        reader: ByteSource,
    },
}

impl ZlibDecoderState {
    /// All the bytes of the underlying source.
    closed spec fn bytes(self) -> Seq<u8> {
        match self {
            ZlibDecoderState::Start { reader } => reader.bytes(),
            ZlibDecoderState::CompressedData { reader, .. } => reader@.data,
            ZlibDecoderState::Checksum { reader, .. } => reader.bytes(),
            ZlibDecoderState::Eof { reader } => reader.bytes(),
        }
    }

    /// Whether the underlying source is complete.
    closed spec fn complete(self) -> bool {
        match self {
            ZlibDecoderState::Start { reader } => reader.complete(),
            ZlibDecoderState::CompressedData { reader, .. } => reader@.complete,
            ZlibDecoderState::Checksum { reader, .. } => reader.complete(),
            ZlibDecoderState::Eof { reader } => reader.complete(),
        }
    }

    /// The stage that the state stands for.
    closed spec fn stage(self) -> Stage {
        match self {
            ZlibDecoderState::Start { reader } => Stage::Start { at: reader.position() },
            ZlibDecoderState::CompressedData { reader, .. } => Stage::CompressedData {
                phase: reader@.phase,
            },
            ZlibDecoderState::Checksum { reader, .. } => Stage::Checksum { at: reader.position() },
            ZlibDecoderState::Eof { reader } => Stage::Eof { at: reader.position() },
        }
    }

    /// The reader that the state holds is well formed, and the running checksum is that
    /// of `produced`, which is nothing at the start.
    closed spec fn wf(self, produced: Seq<u8>) -> bool {
        match self {
            ZlibDecoderState::Start { reader } => reader.wf() && produced == Seq::<u8>::empty(),
            ZlibDecoderState::CompressedData { reader, adler } => {
                &&& reader.wf()
                &&& reader@.history == produced
                &&& adler.wf()
                &&& adler.sums() == feed_sums(initial_sums(), produced)
            },
            ZlibDecoderState::Checksum { reader, adler } => {
                &&& reader.wf()
                &&& adler.wf()
                &&& adler.sums() == feed_sums(initial_sums(), produced)
            },
            ZlibDecoderState::Eof { reader } => reader.wf(),
        }
    }

    /// Takes the next bytes of the stream as they arrive.
    #[verifier::rlimit(50)]
    fn feed(self, more: &[u8], Ghost(produced): Ghost<Seq<u8>>) -> (fed: ZlibDecoderState)
        requires
            self.wf(produced),
        ensures
            fed.wf(produced),
            fed.bytes() == self.bytes() + more@,
            fed.complete() == self.complete(),
            fed.stage() == self.stage(),
    {
        match self {
            ZlibDecoderState::Start { reader } => {
                let mut reader = reader;
                reader.push(more);
                ZlibDecoderState::Start { reader: reader }
            },
            ZlibDecoderState::CompressedData { reader, adler } => {
                let mut reader = reader;
                reader.feed(more);
                ZlibDecoderState::CompressedData { reader: reader, adler: adler }
            },
            ZlibDecoderState::Checksum { reader, adler } => {
                let mut reader = reader;
                reader.push(more);
                ZlibDecoderState::Checksum { reader: reader, adler: adler }
            },
            ZlibDecoderState::Eof { reader } => {
                let mut reader = reader;
                reader.push(more);
                ZlibDecoderState::Eof { reader: reader }
            },
        }
    }

    /// Says that the whole stream has arrived.
    #[verifier::rlimit(50)]
    fn finish(self, Ghost(produced): Ghost<Seq<u8>>) -> (done: ZlibDecoderState)
        requires
            self.wf(produced),
        ensures
            done.wf(produced),
            done.bytes() == self.bytes(),
            done.complete(),
            done.stage() == self.stage(),
    {
        match self {
            ZlibDecoderState::Start { reader } => {
                let mut reader = reader;
                reader.finish();
                ZlibDecoderState::Start { reader: reader }
            },
            ZlibDecoderState::CompressedData { reader, adler } => {
                let mut reader = reader;
                reader.finish();
                ZlibDecoderState::CompressedData { reader: reader, adler: adler }
            },
            ZlibDecoderState::Checksum { reader, adler } => {
                let mut reader = reader;
                reader.finish();
                ZlibDecoderState::Checksum { reader: reader, adler: adler }
            },
            ZlibDecoderState::Eof { reader } => {
                let mut reader = reader;
                reader.finish();
                ZlibDecoderState::Eof { reader: reader }
            },
        }
    }
}

/// A reader that decodes zlib data from an underlying reader.
pub struct ZlibDecoder {
    /// If this ever becomes `None`, that means an error occured somewhere.
    state: Option<ZlibDecoderState>,
    /// All the bytes of the stream that have arrived.
    data: Ghost<Seq<u8>>,
    /// Whether the whole stream has arrived.
    complete: Ghost<bool>,
    /// All the bytes decoded so far.
    produced: Ghost<Seq<u8>>,
}

impl View for ZlibDecoder {
    type V = ZlibModel;

    closed spec fn view(&self) -> ZlibModel {
        ZlibModel {
            data: self.data@,
            complete: self.complete@,
            stage: match self.state {
                Some(state) => state.stage(),
                None => Stage::Poisoned,
            },
            produced: self.produced@,
        }
    }
}

/// The read that started at `before` is not over at `after`, but has come nearer to its
/// end.
spec fn goes_on(before: ZlibModel, after: ZlibModel, cap: nat) -> bool {
    &&& zlib_read(before, cap) == zlib_read(after, cap)
    &&& after.stage.rank() < before.stage.rank()
}

/// The read that started at `before` is over, with the result `done`, and has led to
/// `after`.
spec fn finishes(
    before: ZlibModel,
    after: ZlibModel,
    old_buf: Seq<u8>,
    new_buf: Seq<u8>,
    done: Result<usize, Error>,
) -> bool {
    let outcome = zlib_read(before, old_buf.len());
    &&& after == outcome.model
    &&& match done {
        Ok(n) => {
            &&& outcome.error is None
            &&& n <= old_buf.len()
            &&& new_buf.take(n as int) == outcome.out
            &&& forall|i: int| n <= i < old_buf.len() ==> new_buf[i] == old_buf[i]
        },
        Err(e) => outcome.error == Some(e),
    }
}

impl ZlibDecoder {
    /// The state is well formed, and so is the model.
    pub closed spec fn wf(&self) -> bool {
        &&& self@.well_formed()
        &&& match self.state {
            Some(state) => {
                &&& state.wf(self.produced@)
                &&& state.bytes() == self.data@
                &&& state.complete() == self.complete@
            },
            None => true,
        }
    }

    /// A well-formed decoder has a well-formed model.
    pub proof fn lemma_wf(&self)
        requires
            self.wf(),
        ensures
            self@.well_formed(),
    {
    }

    /// Builds a new zlib decoder by taking ownership of a reader where the data will be
    /// read from. The zlib stream starts where `reader` stands.
    pub fn new(reader: ByteSource) -> (decoder: ZlibDecoder)
        requires
            reader.wf(),
        ensures
            decoder.wf(),
            decoder@ == (ZlibModel {
                data: reader.bytes(),
                complete: reader.complete(),
                stage: Stage::Start { at: reader.position() },
                produced: Seq::empty(),
            }),
    {
        let ghost data = reader.bytes();
        let ghost complete = reader.complete();
        ZlibDecoder {
            state: Some(ZlibDecoderState::Start { reader: reader }),
            data: Ghost(data),
            complete: Ghost(complete),
            produced: Ghost(Seq::empty()),
        }
    }

    /// Takes the next bytes of the stream as they arrive. The decoder stays where it is.
    #[verifier::rlimit(50)]
    pub fn feed(&mut self, more: &[u8])
        requires
            old(self).wf(),
        ensures
            final(self).wf(),
            final(self)@ == (ZlibModel { data: old(self)@.data + more@, ..old(self)@ }),
    {
        match self.state.take() {
            Some(state) => {
                proof {
                    lemma_well_formed_grows(old(self)@, more@);
                }
                let fed = state.feed(more, Ghost(self.produced@));
                self.state = Some(fed);
            },
            None => {},
        }
        self.data = Ghost(self.data@ + more@);
    }

    /// Says that the whole stream has arrived. From then on the decoder does not ask for
    /// input: where the data ends too early, it fails.
    #[verifier::rlimit(50)]
    pub fn finish(&mut self)
        requires
            old(self).wf(),
        ensures
            final(self).wf(),
            final(self)@ == (ZlibModel { complete: true, ..old(self)@ }),
    {
        match self.state.take() {
            Some(state) => {
                let done = state.finish(Ghost(self.produced@));
                self.state = Some(done);
            },
            None => {},
        }
        self.complete = Ghost(true);
    }

    /// The decoder with its state taken out, seen as being at `stage`.
    closed spec fn model_at(&self, stage: Stage) -> ZlibModel {
        ZlibModel {
            data: self.data@,
            complete: self.complete@,
            stage,
            produced: self.produced@,
        }
    }

    /// At the start: reads the header.
    #[verifier::rlimit(50)]
    fn start(&mut self, reader: ByteSource, Ghost(cap): Ghost<nat>) -> (result: Option<Error>)
        requires
            old(self).state is None,
            reader.wf(),
            reader.bytes() == old(self).data@,
            reader.complete() == old(self).complete@,
            old(self).produced@ == Seq::<u8>::empty(),
            cap > 0,
        ensures
            final(self).wf(),
            match result {
                None => goes_on(
                    old(self).model_at(Stage::Start { at: reader.position() }),
                    final(self)@,
                    cap,
                ),
                Some(e) => {
                    &&& final(self)@ == zlib_read(
                        old(self).model_at(Stage::Start { at: reader.position() }),
                        cap,
                    ).model
                    &&& zlib_read(
                        old(self).model_at(Stage::Start { at: reader.position() }),
                        cap,
                    ).error == Some(e)
                },
            },
    {
        let mut reader = reader;
        let offset = reader.offset();
        match consume_zlib_header(&mut reader) {
            Err(e) => {
                if e.ends_early() && !reader.is_complete() {
                    // the header is not all there yet: we stay in front of it
                    reader.seek(offset);
                    self.state = Some(ZlibDecoderState::Start { reader: reader });
                    Some(Error::NeedInput)
                } else {
                    Some(e)
                }
            },
            Ok(()) => {
                let inflater = Inflater::new(reader);
                proof {
                    inflater.lemma_wf();
                }
                self.state = Some(
                    ZlibDecoderState::CompressedData { reader: inflater, adler: Adler32::new() },
                );
                None
            },
        }
    }

    /// In the deflate stream: decodes the next bytes, or goes on to the checksum if the
    /// stream is over.
    #[verifier::rlimit(50)]
    fn read_data(&mut self, reader: Inflater, adler: Adler32, buf: &mut [u8]) -> (result: Option<
        Result<usize, Error>,
    >)
        requires
            old(self).state is None,
            reader.wf(),
            reader@.data == old(self).data@,
            reader@.complete == old(self).complete@,
            reader@.history == old(self).produced@,
            adler.wf(),
            adler.sums() == feed_sums(initial_sums(), old(self).produced@),
            old(buf)@.len() > 0,
        ensures
            final(self).wf(),
            final(buf)@.len() == old(buf)@.len(),
            match result {
                None => {
                    &&& goes_on(
                        old(self).model_at(Stage::CompressedData { phase: reader@.phase }),
                        final(self)@,
                        old(buf)@.len(),
                    )
                    &&& final(buf)@ == old(buf)@
                },
                Some(done) => finishes(
                    old(self).model_at(Stage::CompressedData { phase: reader@.phase }),
                    final(self)@,
                    old(buf)@,
                    final(buf)@,
                    done,
                ),
            },
    {
        let mut reader = reader;
        let mut adler = adler;
        let ghost before = reader@;
        let ghost cap = buf@.len();
        proof {
            reader.lemma_wf();
            lemma_inflate_read(before, cap);
            assert(before == old(self).model_at(
                Stage::CompressedData { phase: reader@.phase },
            ).inflater(before.phase));
        }
        match reader.read(buf) {
            Err(Error::NeedInput) => {
                // the decoder waits where it is
                proof {
                    reader.lemma_wf();
                }
                self.state = Some(
                    ZlibDecoderState::CompressedData { reader: reader, adler: adler },
                );
                Some(Err(Error::NeedInput))
            },
            Err(e) => Some(Err(e)),
            Ok(count) => {
                if count == 0 {
                    proof {
                        assert(buf@ =~= old(buf)@);
                        assert(self.produced@ + Seq::<u8>::empty() =~= self.produced@);
                    }
                    match reader.into_inner() {
                        Some(source) => {
                            self.state = Some(
                                ZlibDecoderState::Checksum { reader: source, adler: adler },
                            );
                            None
                        },
                        None => Some(Err(Error::Poisoned)),
                    }
                } else {
                    let fresh = slice_subrange(buf, 0, count);
                    proof {
                        lemma_feed_concat(initial_sums(), self.produced@, fresh@);
                        reader.lemma_wf();
                    }
                    adler.feed(fresh);
                    self.produced = Ghost(self.produced@ + buf@.take(count as int));
                    self.state = Some(
                        ZlibDecoderState::CompressedData { reader: reader, adler: adler },
                    );
                    Some(Ok(count))
                }
            },
        }
    }

    /// Behind the deflate stream: reads the checksum and compares it with the running
    /// one.
    #[verifier::rlimit(50)]
    fn check(&mut self, reader: ByteSource, adler: Adler32, Ghost(cap): Ghost<nat>) -> (result:
        Result<usize, Error>)
        requires
            old(self).state is None,
            reader.wf(),
            reader.bytes() == old(self).data@,
            reader.complete() == old(self).complete@,
            adler.wf(),
            adler.sums() == feed_sums(initial_sums(), old(self).produced@),
            cap > 0,
        ensures
            final(self).wf(),
            final(self)@ == zlib_read(
                old(self).model_at(Stage::Checksum { at: reader.position() }),
                cap,
            ).model,
            match result {
                Ok(n) => {
                    &&& n == 0
                    &&& zlib_read(
                        old(self).model_at(Stage::Checksum { at: reader.position() }),
                        cap,
                    ).error is None
                    &&& zlib_read(
                        old(self).model_at(Stage::Checksum { at: reader.position() }),
                        cap,
                    ).out.len() == 0
                },
                Err(e) => zlib_read(
                    old(self).model_at(Stage::Checksum { at: reader.position() }),
                    cap,
                ).error == Some(e),
            },
    {
        let mut reader = reader;
        proof {
            assert(self.produced@ + Seq::<u8>::empty() =~= self.produced@);
        }
        let offset = reader.offset();
        let stored = match read_trailer(&mut reader) {
            Ok(stored) => stored,
            Err(e) => {
                if e.ends_early() && !reader.is_complete() {
                    // the checksum is not all there yet: we stay in front of it
                    reader.seek(offset);
                    self.state = Some(
                        ZlibDecoderState::Checksum { reader: reader, adler: adler },
                    );
                    return Err(Error::NeedInput);
                }
                return Err(e);
            },
        };
        if stored != adler.checksum() {
            return Err(Error::ChecksumMismatch);
        }
        self.state = Some(ZlibDecoderState::Eof { reader: reader });
        Ok(0)
    }

    /// Decodes the next bytes of the stream into `buf` and returns how many it wrote. What
    /// lies behind them in `buf` keeps its content.
    ///
    /// It writes at least one byte, unless `buf` is empty or the stream has ended and its
    /// checksum was found right: then it returns 0. Once a read has failed, every later
    /// read fails with `Poisoned`.
    ///
    /// Where the data that has arrived ends too early and the stream is not complete, it
    /// returns `NeedInput`. That is no failure: the decoder goes on from where it stands
    /// once it was fed, or told that the stream is complete.
    #[verifier::rlimit(50)]
    pub fn read(&mut self, buf: &mut [u8]) -> (result: Result<usize, Error>)
        requires
            old(self).wf(),
        ensures
            final(self).wf(),
            final(buf)@.len() == old(buf)@.len(),
            final(self)@ == zlib_read(old(self)@, old(buf)@.len()).model,
            match result {
                Ok(n) => {
                    &&& zlib_read(old(self)@, old(buf)@.len()).error is None
                    &&& n <= old(buf)@.len()
                    &&& final(buf)@.take(n as int) == zlib_read(old(self)@, old(buf)@.len()).out
                    &&& forall|i: int| n <= i < old(buf)@.len() ==> final(buf)@[i] == old(buf)@[i]
                },
                Err(e) => zlib_read(old(self)@, old(buf)@.len()).error == Some(e),
            },
    {
        let ghost cap = buf@.len();
        if buf.len() == 0 {
            proof {
                assert(self.produced@ + Seq::<u8>::empty() =~= self.produced@);
                assert(buf@.take(0) =~= Seq::<u8>::empty());
            }
            return match &self.state {
                None => Err(Error::Poisoned),
                Some(_) => Ok(0),
            };
        }
        loop
            invariant
                self.wf(),
                cap == old(buf)@.len(),
                cap > 0,
                buf@ == old(buf)@,
                zlib_read(old(self)@, cap) == zlib_read(self@, cap),
            decreases self@.stage.rank(),
        {
            let progress = match self.state.take() {
                None => Some(Err(Error::Poisoned)),
                Some(ZlibDecoderState::Start { reader }) => {
                    match self.start(reader, Ghost(cap)) {
                        None => None,
                        Some(e) => Some(Err(e)),
                    }
                },
                Some(ZlibDecoderState::CompressedData { reader, adler }) => {
                    self.read_data(reader, adler, buf)
                },
                Some(ZlibDecoderState::Checksum { reader, adler }) => {
                    proof {
                        assert(buf@.take(0) =~= Seq::<u8>::empty());
                    }
                    Some(self.check(reader, adler, Ghost(cap)))
                },
                Some(ZlibDecoderState::Eof { reader }) => {
                    proof {
                        assert(self.produced@ + Seq::<u8>::empty() =~= self.produced@);
                        assert(buf@.take(0) =~= Seq::<u8>::empty());
                    }
                    self.state = Some(ZlibDecoderState::Eof { reader: reader });
                    Some(Ok(0))
                },
            };
            match progress {
                Some(done) => {
                    return done;
                },
                None => {},
            }
        }
    }
}

} // verus!
