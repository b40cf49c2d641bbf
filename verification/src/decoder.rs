//! The streaming decoder.
use vstd::prelude::*;
use zstd::stream::raw::Decoder as ZstdDecoder;

use crate::cursor::{Cursor, Retirement};
use crate::frame::begins_like_a_frame;
use crate::mapping::{apply_madvise, map_bytes};
use crate::stream::{new_decoder, run_on_buffers};

verus! {

/// Bytes that [`Decoder::read_to_end`] asks for at a time.
pub const CHUNK: usize = 65536;

/// Why a decoder could not be made, or could not go on.
#[derive(Debug)]
pub enum DecodeError {
    /// The kernel refused a hint about the mapping.
    Advise(std::io::Error),
    /// The compressed data does not begin like a zstd frame.
    Header,
    /// zstd could not set up a stream.
    Init(std::io::Error),
    /// zstd rejected the compressed data.
    InvalidData(std::io::Error),
    /// The compressed data ends inside a frame.
    Truncated,
}

impl DecodeError {
    /// Whether it is the compressed data that is at fault.
    pub fn is_invalid_data(&self) -> (r: bool)
        ensures
            r <==> self is Header || self is InvalidData || self is Truncated,
    {
        match self {
            DecodeError::Header | DecodeError::InvalidData(_) | DecodeError::Truncated => true,
            DecodeError::Advise(_) | DecodeError::Init(_) => false,
        }
    }
}

/// What [`Decoder::read_step`] came to.
#[derive(Debug)]
pub struct ReadOutcome {
    /// How many decompressed bytes stand at the front of the caller's buffer.
    pub result: Result<usize, DecodeError>,
    /// Pages of the mapping that can be given back now.
    pub retire: Option<Retirement>,
}

/// Where the compressed bytes are.
enum DecoderBuf<'a> {
    Mmap(memmap2::Mmap),
    Slice(&'a [u8]),
}

impl<'a> DecoderBuf<'a> {
    spec fn bytes(self) -> Seq<u8> {
        match self {
            DecoderBuf::Mmap(m) => crate::mapping::mapped(m),
            DecoderBuf::Slice(s) => s@,
        }
    }

    fn deref(&self) -> (r: &[u8])
        ensures
            r@ == self.bytes(),
    {
        match self {
            DecoderBuf::Mmap(m) => map_bytes(m),
            DecoderBuf::Slice(s) => s,
        }
    }
}

/// A zstd decompressor over a mapping that it owns or a slice that it borrows.
///
/// Nothing is decompressed before it is asked for.
pub struct Decoder<'a> {
    buf: DecoderBuf<'a>,
    cursor: Cursor,
    zstd: ZstdDecoder<'static>,
}

impl Decoder<'static> {
    /// A decoder over a mapping, which it owns from now on. The kernel is told
    /// first how the mapping will be read.
    ///
    /// A mapping that does not begin like a frame is refused. Otherwise it is the kernel
    /// that decides whether this succeeds: [`apply_madvise`] says on which answers, and
    /// [`from_advised`](Self::from_advised) what comes of it.
    pub fn from_mmap(mmap: memmap2::Mmap) -> (r: Result<Self, DecodeError>)
        ensures
            r matches Ok(d) ==> {
                &&& d.wf()
                &&& d.fresh()
                &&& d.data() == crate::mapping::mapped(mmap)
                &&& d.cursor().file_backed
                &&& crate::mapping::hints(mmap).is_prefix_of(d.hints())
                &&& crate::mapping::plan_result(
                    d.hints().skip(crate::mapping::hints(mmap).len() as int),
                    Ok(()),
                )
                &&& crate::frame::may_begin_frame(d.data())
            },
            r matches Err(e) ==> e is Advise || (e is Header && !crate::frame::may_begin_frame(
                crate::mapping::mapped(mmap),
            )),
    {
        let mut mmap = mmap;
        let advised = apply_madvise(&mut mmap);
        Self::from_advised(mmap, advised)
    }

    /// A decoder over a mapping about which the kernel has been given the hints, with
    /// the answer `advised`. It is refused if they were, and otherwise if it does not
    /// begin like a frame.
    pub fn from_advised(mmap: memmap2::Mmap, advised: Result<(), std::io::Error>) -> (r: Result<
        Self,
        DecodeError,
    >)
        ensures
            match advised {
                Ok(()) => if crate::frame::may_begin_frame(crate::mapping::mapped(mmap)) {
                    r matches Ok(d) && {
                        &&& d.wf()
                        &&& d.fresh()
                        &&& d.data() == crate::mapping::mapped(mmap)
                        &&& d.cursor().file_backed
                        &&& d.hints() == crate::mapping::hints(mmap)
                    }
                } else {
                    r == Err::<Self, DecodeError>(DecodeError::Header)
                },
                Err(e) => r == Err::<Self, DecodeError>(DecodeError::Advise(e)),
            },
    {
        match advised {
            Err(e) => {
                return Err(DecodeError::Advise(e));
            },
            Ok(()) => {},
        }
        if !begins_like_a_frame(map_bytes(&mmap)) {
            return Err(DecodeError::Header);
        }
        match new_decoder() {
            Err(e) => Err(DecodeError::Init(e)),
            Ok(zstd) => {
                let bytes = map_bytes(&mmap);
                assert(bytes.len() == bytes@.len());
                let d = Decoder { buf: DecoderBuf::Mmap(mmap), cursor: Cursor::new(true), zstd };
                proof {
                    d.lemma_fresh();
                }
                Ok(d)
            },
        }
    }
}

impl<'a> Decoder<'a> {
    /// The compressed input, all of it.
    pub closed spec fn data(self) -> Seq<u8> {
        self.buf.bytes()
    }

    /// What the kernel has been told about the mapping, if there is one.
    pub closed spec fn hints(self) -> Seq<crate::mapping::Hint> {
        match self.buf {
            DecoderBuf::Mmap(m) => crate::mapping::hints(m),
            DecoderBuf::Slice(_) => Seq::empty(),
        }
    }

    /// The position in the compressed input.
    pub closed spec fn cursor(self) -> Cursor {
        self.cursor
    }

    /// The steps that zstd was made to do so far.
    pub closed spec fn history(self) -> Seq<crate::stream::Step> {
        crate::stream::history(self.zstd)
    }

    /// Everything that has been read from this decoder so far.
    pub open spec fn produced(self) -> Seq<u8> {
        crate::stream::produced(self.history())
    }

    /// The compressed input up to the cursor.
    pub open spec fn consumed(self) -> Seq<u8> {
        self.data().take(self.cursor().in_pos as int)
    }

    /// The compressed input from the cursor on.
    pub open spec fn rest(self) -> Seq<u8> {
        self.data().skip(self.cursor().in_pos as int)
    }

    /// Nothing has been read from the decoder yet.
    pub open spec fn fresh(self) -> bool {
        self.cursor().at_start() && self.history() == Seq::<crate::stream::Step>::empty()
    }

    /// What holds of every decoder that came from a constructor.
    pub closed spec fn wf(self) -> bool {
        let h = self.history();
        &&& self.data().len() <= usize::MAX
        &&& self.cursor.wf(self.data().len() as int)
        &&& self.cursor.file_backed == (self.buf is Mmap)
        &&& crate::stream::fed(h) == self.consumed()
        &&& crate::stream::in_order(h, self.data())
        &&& crate::stream::offered(h).len() == 0 || crate::stream::offered(h) == self.data()
        &&& crate::stream::between_frames(h) ==> !self.cursor.frame_open
        &&& forall|parts: Seq<Seq<u8>>|
            #[trigger] crate::frame::begins(self.data(), parts) ==> self.on_course(parts)
    }

    /// What moreover holds if the input is the stream of the frames `parts`, or the
    /// beginning of it: between two frames all of the content up to the cursor has been
    /// read, and inside a frame there is something left to read or no input left; if
    /// the stream is whole, there is something left to read.
    closed spec fn on_course(self, parts: Seq<Seq<u8>>) -> bool {
        let h = self.history();
        let open = self.cursor.frame_open;
        &&& self.produced().is_prefix_of(crate::frame::contents(parts))
        &&& !open ==> crate::frame::at_boundary(self.consumed(), self.produced(), parts)
        &&& !open && !crate::stream::broken(h) ==> crate::stream::between_frames(h)
        &&& open ==> self.cursor.in_pos == self.data().len() || crate::stream::pending(self.zstd)
        &&& open && self.data() == crate::frame::joined(parts) ==> self.cursor.in_pos
            < self.data().len() && crate::stream::pending(self.zstd)
    }

    /// What it means that a read with the buffer contents `asked` turned the
    /// decoder `self` into `after`, left the buffer as `filled`, and returned `r`.
    ///
    /// A read into a buffer without room does nothing. Any other is one step of zstd,
    /// which is given the rest of the input and all of the buffer, and whose report
    /// decides how the read ends.
    pub open spec fn reads(
        self,
        after: Self,
        asked: Seq<u8>,
        filled: Seq<u8>,
        r: Result<usize, DecodeError>,
    ) -> bool {
        let handed = after.cursor().handed_pos;
        let step = after.history().last();
        &&& after.data() == self.data()
        &&& after.hints() == self.hints()
        &&& filled.len() == asked.len()
        &&& if asked.len() == 0 {
            &&& r == Ok::<usize, DecodeError>(0)
            &&& after.history() == self.history()
            &&& after.cursor() == self.cursor().with_handed(handed)
        } else {
            &&& after.history() == self.history().push(step)
            &&& step.input == self.rest()
            &&& step.room == asked.len()
            &&& match step.report {
                Err(e) => {
                    &&& r == Err::<usize, DecodeError>(DecodeError::InvalidData(e))
                    &&& after.cursor() == self.cursor().with_handed(handed)
                    &&& after.produced() == self.produced()
                },
                Ok(s) => {
                    &&& s.bytes_read <= step.input.len()
                    &&& s.bytes_written <= asked.len()
                    &&& after.cursor() == self.cursor().moved(s).retired().with_handed(handed)
                    &&& after.produced() == self.produced() + filled.take(s.bytes_written as int)
                    &&& r == (if self.cursor().cut_short(self.data().len() as int, s) {
                        Err::<usize, DecodeError>(DecodeError::Truncated)
                    } else {
                        Ok(s.bytes_written)
                    })
                },
            }
            &&& r == Ok::<usize, DecodeError>(0) ==> after.rests()
            &&& r == Err::<usize, DecodeError>(DecodeError::Truncated)
                ==> after.ended_inside_frame() && !crate::frame::well_formed(self.data())
            &&& self.at_end() ==> r == Ok::<usize, DecodeError>(0) && after.at_end()
            // A frame that is all there is left is delivered at once, if there is room.
            &&& r matches Ok(n) ==> (crate::frame::frame_content(self.rest()) matches Some(c)
                ==> (crate::stream::between_frames(self.history()) && c.len() <= asked.len()
                ==> filled.take(n as int) == c && after.at_end()))
        }
    }

    /// A read has found the end. If the input is a stream of frames, cut off or not,
    /// this is the end of one of them, and all of the content up to there has been
    /// read; and it is the end of the input, unless a frame before it has no content.
    pub open spec fn rests(self) -> bool {
        &&& !self.ended_inside_frame()
        &&& forall|parts: Seq<Seq<u8>>| #[trigger]
            crate::frame::begins(self.data(), parts) ==> {
                &&& crate::frame::at_boundary(self.consumed(), self.produced(), parts)
                &&& crate::stream::between_frames(self.history())
                &&& !crate::frame::silent(parts) ==> self.cursor().in_pos == self.data().len()
            }
    }

    /// All of the input has been consumed, and the last frame has ended.
    pub open spec fn at_end(self) -> bool {
        crate::stream::between_frames(self.history()) && self.cursor().in_pos == self.data().len()
    }

    /// All of the input has been consumed, and a frame is still open.
    pub open spec fn ended_inside_frame(self) -> bool {
        self.cursor().frame_open && self.cursor().in_pos == self.data().len()
    }

    proof fn lemma_fresh(self)
        requires
            self.cursor.at_start(),
            self.cursor.wf(0),
            self.data().len() <= usize::MAX,
            self.cursor.file_backed == (self.buf is Mmap),
            self.history() == Seq::<crate::stream::Step>::empty(),
        ensures
            self.wf(),
    {
        assert(self.consumed() =~= Seq::<u8>::empty());
        assert(self.produced() =~= Seq::<u8>::empty());
        assert forall|parts: Seq<Seq<u8>>| #[trigger]
            crate::frame::begins(self.data(), parts) implies self.on_course(parts) by {
            crate::frame::lemma_start(parts);
        }
    }

    /// What a successful step into a buffer with room comes to, before it is known to
    /// keep the decoder on course.
    closed spec fn steps_to(self, after: Self) -> bool {
        let step = after.history().last();
        &&& self.wf()
        &&& after.data() == self.data()
        &&& after.history() == self.history().push(step)
        &&& step.input == self.rest()
        &&& step.room > 0
        &&& step.report matches Ok(s) && {
            &&& s.bytes_read <= step.input.len()
            &&& s.bytes_written == step.output.len()
            &&& after.cursor == self.cursor.moved(s).retired()
        }
        &&& !crate::stream::broken(self.history())
        &&& crate::stream::fed(after.history()) == after.consumed()
        &&& crate::stream::offered(after.history()) == after.data()
        &&& forall|parts: Seq<Seq<u8>>|
            #[trigger] crate::frame::begins(self.data(), parts) ==> crate::stream::step_faithful(
                self.zstd,
                after.zstd,
                parts,
            )
    }

    /// A successful step keeps a decoder on course.
    proof fn lemma_step_keeps_course(self, after: Self, parts: Seq<Seq<u8>>)
        requires
            self.steps_to(after),
            crate::frame::begins(self.data(), parts),
        ensures
            after.on_course(parts),
    {
        let h = self.history();
        let step = after.history().last();
        let s = step.report->Ok_0;
        crate::stream::lemma_one_more(h, step);
        assert(self.on_course(parts));
        assert(crate::stream::step_faithful(self.zstd, after.zstd, parts));
        if step.input.len() == 0 {
            assert(self.consumed() =~= self.data());
            assert(step.taken() =~= Seq::<u8>::empty());
            if !self.cursor.frame_open && self.data() == crate::frame::joined(parts) {
                crate::frame::lemma_boundary(self.consumed(), self.produced(), parts);
                assert(after.produced().len() == self.produced().len() + step.output.len());
            }
        }
        if s.remaining != 0 && s.bytes_read == 0 && s.bytes_written == 0 {
            assert(after.consumed() =~= self.consumed());
            assert(after.produced() =~= self.produced());
        }
    }

    /// A successful step that delivers nothing, and does not end inside a frame, has
    /// found the end of the input or a frame without content.
    proof fn lemma_nothing_read(self, after: Self, parts: Seq<Seq<u8>>)
        requires
            self.steps_to(after),
            crate::frame::begins(self.data(), parts),
            after.history().last().report->Ok_0.bytes_written == 0,
            !after.ended_inside_frame(),
        ensures
            crate::frame::at_boundary(after.consumed(), after.produced(), parts),
            crate::stream::between_frames(after.history()),
            !crate::frame::silent(parts) ==> after.cursor.in_pos == after.data().len(),
    {
        let h = self.history();
        let step = after.history().last();
        let s = step.report->Ok_0;
        crate::stream::lemma_one_more(h, step);
        self.lemma_step_keeps_course(after, parts);
        assert(self.on_course(parts));
        assert(crate::stream::step_faithful(self.zstd, after.zstd, parts));
        assert(!after.cursor.frame_open);
        assert(after.produced() =~= self.produced());
        if after.cursor.in_pos < after.data().len() {
            assert(step.input.len() > 0);
            assert(s.remaining == 0);
            assert(!self.cursor.frame_open);
            crate::frame::lemma_silence(
                self.consumed(),
                after.consumed(),
                self.produced(),
                parts,
            );
        }
    }

    /// A decoder over `data`, which the caller keeps. No hints are given about it.
    ///
    /// Data that does not begin like a frame is refused.
    pub fn from_slice(data: &'a [u8]) -> (r: Result<Self, DecodeError>)
        ensures
            r is Ok <==> crate::frame::may_begin_frame(data@),
            r matches Ok(d) ==> {
                &&& d.wf()
                &&& d.fresh()
                &&& d.data() == data@
                &&& !d.cursor().file_backed
                &&& d.hints() == Seq::<crate::mapping::Hint>::empty()
            },
            r matches Err(e) ==> e is Header,
    {
        if !begins_like_a_frame(data) {
            return Err(DecodeError::Header);
        }
        match new_decoder() {
            Err(e) => Err(DecodeError::Init(e)),
            Ok(zstd) => {
                let d = Decoder { buf: DecoderBuf::Slice(data), cursor: Cursor::new(false), zstd };
                assert(data.len() == data@.len());
                proof {
                    d.lemma_fresh();
                }
                Ok(d)
            },
        }
    }

    /// The position up to which pages of the mapping are given up.
    pub fn retire_pos(&self) -> (r: usize)
        ensures
            r == self.cursor().retire_pos,
    {
        self.cursor.retire_pos
    }

    /// The mapping that the decoder reads from, if it reads from one.
    pub fn mmap(&self) -> (r: Option<&memmap2::Mmap>)
        requires
            self.wf(),
        ensures
            r is Some <==> self.cursor().file_backed,
            r matches Some(m) ==> crate::mapping::mapped(*m) == self.data()
                && crate::mapping::hints(*m) == self.hints(),
    {
        match &self.buf {
            DecoderBuf::Mmap(m) => Some(m),
            DecoderBuf::Slice(_) => None,
        }
    }

    /// Decompresses the next bytes into `buf` and returns how many there are. Zero is the
    /// end, or the end of a frame without content.
    ///
    /// Pages of a mapping that are not needed any more are given up. They are named by
    /// the next [`read_step`](Self::read_step).
    pub fn read(&mut self, buf: &mut [u8]) -> (r: Result<usize, DecodeError>)
        requires
            old(self).wf(),
        ensures
            final(self).wf(),
            old(self).reads(*final(self), old(buf)@, final(buf)@, r),
            final(self).cursor().handed_pos == old(self).cursor().handed_pos,
    {
        if buf.len() == 0 {
            return Ok(0);
        }
        let ghost before = *self;
        let ghost h = self.history();
        let all = self.buf.deref();
        let len: usize = all.len();
        let input = vstd::slice::slice_subrange(all, self.cursor.in_pos, len);
        assert(input@ =~= self.rest());
        assert(crate::stream::fed(h) + input@ =~= self.data());
        let answer = run_on_buffers(&mut self.zstd, input, buf);
        let ghost step = self.history().last();
        proof {
            crate::stream::lemma_one_more(h, step);
            assert(self.history() == h.push(step));
            assert(before.data().skip(crate::stream::fed(h).len() as int) =~= input@);
        }
        match answer {
            Err(e) => {
                assert(self.consumed() =~= before.consumed());
                assert(crate::stream::fed(self.history()) =~= before.consumed());
                assert(self.produced() =~= before.produced());
                assert forall|parts: Seq<Seq<u8>>| #[trigger]
                    crate::frame::begins(self.data(), parts) implies self.on_course(parts) by {
                    assert(before.on_course(parts));
                }
                Err(DecodeError::InvalidData(e))
            },
            Ok(status) => {
                let outcome = self.cursor.advance(len, status);
                proof {
                    assert(self.cursor == before.cursor.moved(status).retired());
                    assert(self.consumed() =~= before.consumed() + input@.take(
                        status.bytes_read as int,
                    ));
                    assert(before.steps_to(*self));
                    assert forall|parts: Seq<Seq<u8>>| #[trigger]
                        crate::frame::begins(self.data(), parts) implies self.on_course(parts) by {
                        before.lemma_step_keeps_course(*self, parts);
                    }
                    assert(self.wf());
                    if status.bytes_written == 0 && !self.ended_inside_frame() {
                        assert forall|parts: Seq<Seq<u8>>| #[trigger]
                            crate::frame::begins(self.data(), parts) implies {
                            &&& crate::frame::at_boundary(self.consumed(), self.produced(), parts)
                            &&& crate::stream::between_frames(self.history())
                            &&& !crate::frame::silent(parts) ==> self.cursor().in_pos
                                == self.data().len()
                        } by {
                            before.lemma_nothing_read(*self, parts);
                        }
                    }
                    if self.ended_inside_frame() && crate::frame::well_formed(self.data()) {
                        let parts = choose|parts: Seq<Seq<u8>>|
                            crate::frame::consists(self.data(), parts);
                        assert(self.data().take(self.data().len() as int) =~= self.data());
                        assert(crate::frame::begins(self.data(), parts));
                    }
                }
                match outcome {
                    Ok(n) => Ok(n),
                    Err(_) => Err(DecodeError::Truncated),
                }
            },
        }
    }

    /// Like [`read`](Self::read), and moreover names the pages of the mapping that have
    /// been given up and were not named before.
    pub fn read_step(&mut self, buf: &mut [u8]) -> (r: ReadOutcome)
        requires
            old(self).wf(),
        ensures
            final(self).wf(),
            old(self).reads(*final(self), old(buf)@, final(buf)@, r.result),
            final(self).cursor().handed_pos == final(self).cursor().retire_pos,
            r.retire == crate::cursor::retirement_between(
                old(self).cursor().handed_pos,
                final(self).cursor().retire_pos,
            ),
    {
        let result = self.read(buf);
        let ghost mid = *self;
        let retire = self.cursor.hand_out();
        proof {
            crate::cursor::law_window_is_kept(mid.cursor, mid.data().len() as int);
            assert forall|parts: Seq<Seq<u8>>| #[trigger]
                crate::frame::begins(self.data(), parts) implies self.on_course(parts) by {
                assert(mid.on_course(parts));
            }
        }
        ReadOutcome { result, retire }
    }

    /// Reads up to the end, or the end of a frame without content, and appends to `out`
    /// what there is.
    ///
    /// What was read before an error is appended as well.
    pub fn read_to_end(&mut self, out: &mut Vec<u8>) -> (r: Result<usize, DecodeError>)
        requires
            old(self).wf(),
        ensures
            final(self).wf(),
            final(self).data() == old(self).data(),
            final(self).hints() == old(self).hints(),
            final(self).cursor().file_backed == old(self).cursor().file_backed,
            final(self).cursor().handed_pos == old(self).cursor().handed_pos,
            old(self).cursor().in_pos <= final(self).cursor().in_pos,
            old(out)@.is_prefix_of(final(out)@),
            final(self).produced() == old(self).produced() + final(out)@.skip(
                old(out)@.len() as int,
            ),
            // It takes one step or more, each with room for a chunk; the last one decides.
            final(self).history().len() > old(self).history().len(),
            old(self).history().is_prefix_of(final(self).history()),
            forall|k: int|
                old(self).history().len() <= k < final(self).history().len() ==> (
                #[trigger] final(self).history()[k]).room == CHUNK,
            match r {
                Ok(n) => {
                    &&& n == final(out)@.len() - old(out)@.len()
                    &&& final(self).history().last().report matches Ok(s) && s.bytes_written == 0
                    &&& final(self).rests()
                },
                Err(DecodeError::InvalidData(e)) => final(self).history().last().report == Err::<
                    crate::stream::Status,
                    std::io::Error,
                >(e),
                Err(e) => {
                    &&& e is Truncated
                    &&& final(self).history().last().report matches Ok(s) && s.bytes_written == 0
                    &&& final(self).ended_inside_frame()
                    &&& !crate::frame::well_formed(old(self).data())
                },
            },
            old(self).at_end() ==> r == Ok::<usize, DecodeError>(0) && final(self).at_end(),
    {
        let mut chunk: Vec<u8> = vec![0u8; CHUNK];
        let start: usize = out.len();
        let ghost first = self.history();
        assert(first.take(first.len() as int) =~= first);
        loop
            invariant
                self.wf(),
                self.data() == old(self).data(),
                self.hints() == old(self).hints(),
                self.cursor().file_backed == old(self).cursor().file_backed,
                self.cursor().handed_pos == old(self).cursor().handed_pos,
                old(self).cursor().in_pos <= self.cursor().in_pos,
                start == old(out)@.len(),
                old(out)@.is_prefix_of(out@),
                self.produced() == old(self).produced() + out@.skip(start as int),
                chunk@.len() == CHUNK,
                first == old(self).history(),
                first.is_prefix_of(self.history()),
                forall|k: int|
                    first.len() <= k < self.history().len() ==> (
                    #[trigger] self.history()[k]).room == CHUNK,
                old(self).at_end() ==> self.at_end() && out@ == old(out)@,
            decreases usize::MAX - out@.len(),
        {
            let ghost had = out@;
            let ghost h = self.history();
            let answer = self.read(chunk.as_mut_slice());
            proof {
                assert(self.history().take(first.len() as int) =~= h.take(first.len() as int));
                assert(chunk@.take(0) =~= Seq::<u8>::empty());
                assert(had.skip(start as int) + chunk@.take(0) =~= had.skip(start as int));
                assert(self.history().last().report is Ok ==> self.produced()
                    =~= old(self).produced() + (had.skip(start as int) + chunk@.take(
                    self.history().last().report->Ok_0.bytes_written as int,
                )));
            }
            match answer {
                Err(e) => {
                    return Err(e);
                },
                Ok(n) => {
                    if n == 0 {
                        return Ok(out.len() - start);
                    }
                    out.extend_from_slice(vstd::slice::slice_subrange(chunk.as_slice(), 0, n));
                    assert(out@ =~= had + chunk@.take(n as int));
                    assert(out.len() == out@.len());
                    assert(out@.skip(start as int) =~= had.skip(start as int) + chunk@.take(
                        n as int,
                    ));
                },
            }
        }
    }
}

/// The bytes that a sequence of reads delivered, in order.
pub open spec fn delivered(filled: Seq<Seq<u8>>, results: Seq<Result<usize, DecodeError>>) -> Seq<
    u8,
>
    decreases results.len(),
{
    if results.len() == 0 {
        Seq::empty()
    } else {
        delivered(filled.drop_last(), results.drop_last()) + match results.last() {
            Ok(n) => filled.last().take(n as int),
            Err(_) => Seq::empty(),
        }
    }
}

/// Whether reads with the buffers `asked` took a decoder through the states `ds`, left
/// the buffers as `filled` and returned `results`.
pub open spec fn reads_run(
    ds: Seq<Decoder<'_>>,
    asked: Seq<Seq<u8>>,
    filled: Seq<Seq<u8>>,
    results: Seq<Result<usize, DecodeError>>,
) -> bool {
    &&& ds.len() == results.len() + 1
    &&& asked.len() == results.len()
    &&& filled.len() == results.len()
    &&& forall|k: int| 0 <= k < ds.len() ==> (#[trigger] ds[k]).wf()
    &&& forall|k: int|
        0 <= k < results.len() ==> ds[k].reads(
            ds[k + 1],
            asked[k],
            filled[k],
            #[trigger] results[k],
        )
}

proof fn lemma_shorter_run(
    ds: Seq<Decoder<'_>>,
    asked: Seq<Seq<u8>>,
    filled: Seq<Seq<u8>>,
    results: Seq<Result<usize, DecodeError>>,
)
    requires
        reads_run(ds, asked, filled, results),
        results.len() > 0,
    ensures
        reads_run(ds.drop_last(), asked.drop_last(), filled.drop_last(), results.drop_last()),
{
    let ds0 = ds.drop_last();
    let results0 = results.drop_last();
    assert forall|k: int| 0 <= k < results0.len() implies ds0[k].reads(
        ds0[k + 1],
        asked.drop_last()[k],
        filled.drop_last()[k],
        #[trigger] results0[k],
    ) by {
        assert(results0[k] == results[k]);
    }
    assert forall|k: int| 0 <= k < ds0.len() implies (#[trigger] ds0[k]).wf() by {
        assert(ds0[k] == ds[k]);
    }
}

/// Whatever the sizes of the buffers, what has been read from a new decoder is what the
/// reads delivered, in order, with nothing lost and nothing repeated.
pub proof fn law_reads_add_up(
    ds: Seq<Decoder<'_>>,
    asked: Seq<Seq<u8>>,
    filled: Seq<Seq<u8>>,
    results: Seq<Result<usize, DecodeError>>,
)
    requires
        reads_run(ds, asked, filled, results),
        ds[0].fresh(),
    ensures
        ds.last().produced() == delivered(filled, results),
        ds.last().data() == ds[0].data(),
    decreases results.len(),
{
    if results.len() > 0 {
        let n = results.len() - 1;
        lemma_shorter_run(ds, asked, filled, results);
        law_reads_add_up(
            ds.drop_last(),
            asked.drop_last(),
            filled.drop_last(),
            results.drop_last(),
        );
        assert(ds[n].reads(ds[n + 1], asked[n], filled[n], results[n]));
        assert(filled[n].take(0) =~= Seq::<u8>::empty());
        assert(ds[n].produced() + Seq::<u8>::empty() =~= ds[n].produced());
        if let Err(e) = results[n] {
            assert(ds[n + 1].produced() =~= ds[n].produced());
        }
    } else {
        assert(ds.last().produced() =~= Seq::<u8>::empty());
    }
}

/// What was compressed comes back: if a new decoder over a stream of frames is read
/// with buffers of any size up to the first zero, and no read fails, the bytes are the
/// content of the frames. No frame but the last may be without content.
pub proof fn law_round_trip(
    ds: Seq<Decoder<'_>>,
    asked: Seq<Seq<u8>>,
    filled: Seq<Seq<u8>>,
    results: Seq<Result<usize, DecodeError>>,
    parts: Seq<Seq<u8>>,
)
    requires
        reads_run(ds, asked, filled, results),
        ds[0].fresh(),
        crate::frame::consists(ds[0].data(), parts),
        !crate::frame::silent(parts),
        results.len() > 0,
        asked.last().len() > 0,
        results.last() == Ok::<usize, DecodeError>(0),
    ensures
        delivered(filled, results) == crate::frame::contents(parts),
        ds.last().at_end(),
{
    law_reads_add_up(ds, asked, filled, results);
    let n = results.len() - 1;
    assert(ds[n].reads(ds[n + 1], asked[n], filled[n], results[n]));
    law_end_means_everything(ds[n + 1], parts);
}

/// What has been read from a decoder over a stream of frames, or over the beginning of
/// one, is the beginning of the stream's content.
pub proof fn law_output_is_faithful(d: Decoder<'_>, parts: Seq<Seq<u8>>)
    requires
        d.wf(),
        crate::frame::begins(d.data(), parts),
    ensures
        d.produced().is_prefix_of(crate::frame::contents(parts)),
{
}

/// Once a decoder over a stream of frames rests, and no frame without content stands in
/// the way, all of the content has been read.
pub proof fn law_end_means_everything(d: Decoder<'_>, parts: Seq<Seq<u8>>)
    requires
        d.wf(),
        d.rests(),
        crate::frame::consists(d.data(), parts),
        !crate::frame::silent(parts),
    ensures
        d.produced() == crate::frame::contents(parts),
        d.consumed() == d.data(),
        d.at_end(),
{
    assert(d.data().take(d.data().len() as int) =~= d.data());
    assert(crate::frame::begins(d.data(), parts));
    crate::frame::lemma_boundary(d.consumed(), d.produced(), parts);
}

/// Decoding goes on past the end of a frame: of two frames, the first of which has some
/// content, both are read.
pub proof fn law_frames_follow_each_other(d: Decoder<'_>, first: Seq<u8>, second: Seq<u8>)
    requires
        d.wf(),
        d.rests(),
        crate::frame::is_frame(first),
        crate::frame::is_frame(second),
        crate::frame::frame_content(first)->Some_0.len() > 0,
        d.data() == first + second,
    ensures
        d.produced() == crate::frame::frame_content(first)->Some_0 + crate::frame::frame_content(
            second,
        )->Some_0,
{
    crate::frame::law_frame_is_a_stream(first);
    crate::frame::law_frame_is_a_stream(second);
    crate::frame::law_streams_join(seq![first], seq![second]);
    law_end_means_everything(d, seq![first] + seq![second]);
}

/// The end is final: once all of the input has been consumed and the last frame has
/// ended, no read fails, delivers anything or moves the decoder.
pub proof fn law_end_is_final(
    before: Decoder<'_>,
    after: Decoder<'_>,
    asked: Seq<u8>,
    filled: Seq<u8>,
    r: Result<usize, DecodeError>,
)
    requires
        before.wf(),
        before.at_end(),
        before.reads(after, asked, filled, r),
    ensures
        r == Ok::<usize, DecodeError>(0),
        after.at_end(),
        after.produced() == before.produced(),
        after.cursor().in_pos == before.cursor().in_pos,
{
    assert(filled.take(0) =~= Seq::<u8>::empty());
    assert(before.produced() + Seq::<u8>::empty() =~= before.produced());
}

/// A stream that is cut off inside a frame never reads as if it had ended: a read into
/// a buffer with room delivers something, or fails, and it says that the input is cut
/// off if zstd has taken the step and has nothing left to deliver. No frame but the last
/// may be without content.
pub proof fn law_cut_is_reported(
    before: Decoder<'_>,
    after: Decoder<'_>,
    asked: Seq<u8>,
    filled: Seq<u8>,
    r: Result<usize, DecodeError>,
    parts: Seq<Seq<u8>>,
)
    requires
        before.wf(),
        after.wf(),
        before.reads(after, asked, filled, r),
        asked.len() > 0,
        crate::frame::cut_inside(before.data(), parts),
        !crate::frame::silent(parts),
    ensures
        r != Ok::<usize, DecodeError>(0),
        (after.history().last().report matches Ok(s) && s.bytes_written == 0) ==> r == Err::<
            usize,
            DecodeError,
        >(DecodeError::Truncated),
{
    if r == Ok::<usize, DecodeError>(0) {
        assert(crate::frame::begins(after.data(), parts));
        assert(after.consumed() =~= after.data());
        let k = choose|k: int|
            #[trigger] crate::frame::stands_after(after.consumed(), after.produced(), parts, k);
        assert(after.data() == crate::frame::joined(parts.take(k)));
    }
}

/// Two decoders over the same stream of frames, cut off or not, whatever they are backed
/// by and however large the buffers that were read into, agree as far as both have come.
pub proof fn law_reads_agree(a: Decoder<'_>, b: Decoder<'_>, parts: Seq<Seq<u8>>)
    requires
        a.wf(),
        b.wf(),
        a.data() == b.data(),
        crate::frame::begins(a.data(), parts),
        a.produced().len() <= b.produced().len(),
    ensures
        a.produced().is_prefix_of(b.produced()),
{
    let c = crate::frame::contents(parts);
    assert(c.take(a.produced().len() as int) =~= a.produced());
}

/// What a decoder is backed by cannot be seen in what is read from it, whatever the
/// data: of two decoders that have come equally far in the same data, reads into equally
/// large buffers put the same before zstd, and where zstd answers alike, they return the
/// same, deliver the same bytes and come equally far again.
pub proof fn law_backing_is_invisible(
    a: Decoder<'_>,
    a_after: Decoder<'_>,
    a_filled: Seq<u8>,
    a_result: Result<usize, DecodeError>,
    b: Decoder<'_>,
    b_after: Decoder<'_>,
    b_filled: Seq<u8>,
    b_result: Result<usize, DecodeError>,
    asked: Seq<u8>,
)
    requires
        a.reads(a_after, asked, a_filled, a_result),
        b.reads(b_after, asked, b_filled, b_result),
        a.data() == b.data(),
        a.history() == b.history(),
        a.cursor().in_pos == b.cursor().in_pos,
        a.cursor().frame_open == b.cursor().frame_open,
    ensures
        asked.len() > 0 ==> a_after.history().last().input == b_after.history().last().input
            && a_after.history().last().room == b_after.history().last().room,
        asked.len() > 0 && a_after.history().last() != b_after.history().last() || {
            &&& a_result == b_result
            &&& a_result matches Ok(n) ==> a_filled.take(n as int) == b_filled.take(n as int)
            &&& a_after.history() == b_after.history()
            &&& a_after.cursor().in_pos == b_after.cursor().in_pos
            &&& a_after.cursor().frame_open == b_after.cursor().frame_open
        },
{
    if asked.len() > 0 && a_after.history().last() == b_after.history().last() {
        if let Ok(n) = a_result {
            let p = a.produced();
            assert(p + a_filled.take(n as int) == p + b_filled.take(n as int));
            assert((p + a_filled.take(n as int)).skip(p.len() as int) =~= a_filled.take(n as int));
            assert((p + b_filled.take(n as int)).skip(p.len() as int) =~= b_filled.take(n as int));
        }
    }
    assert(a_filled.take(0) =~= b_filled.take(0));
}

/// The same of any number of reads: of two new decoders over the same data, whatever it
/// is and whatever they are backed by, read with equally large buffers, each read returns
/// the same and delivers the same bytes, if zstd answers alike.
pub proof fn law_runs_agree(
    a: Seq<Decoder<'_>>,
    a_filled: Seq<Seq<u8>>,
    a_results: Seq<Result<usize, DecodeError>>,
    b: Seq<Decoder<'_>>,
    b_filled: Seq<Seq<u8>>,
    b_results: Seq<Result<usize, DecodeError>>,
    asked: Seq<Seq<u8>>,
)
    requires
        reads_run(a, asked, a_filled, a_results),
        reads_run(b, asked, b_filled, b_results),
        a[0].fresh(),
        b[0].fresh(),
        a[0].data() == b[0].data(),
        a.last().history() == b.last().history(),
    ensures
        a_results == b_results,
        delivered(a_filled, a_results) == delivered(b_filled, b_results),
        a.last().data() == b.last().data(),
        a.last().cursor().in_pos == b.last().cursor().in_pos,
        a.last().cursor().frame_open == b.last().cursor().frame_open,
    decreases asked.len(),
{
    law_reads_add_up(a, asked, a_filled, a_results);
    law_reads_add_up(b, asked, b_filled, b_results);
    if asked.len() > 0 {
        let n = asked.len() - 1;
        assert(a[n].reads(a[n + 1], asked[n], a_filled[n], a_results[n]));
        assert(b[n].reads(b[n + 1], asked[n], b_filled[n], b_results[n]));
        assert(a[n].history() =~= b[n].history()) by {
            if asked[n].len() > 0 {
                assert(a[n].history() =~= a[n + 1].history().drop_last());
                assert(b[n].history() =~= b[n + 1].history().drop_last());
            }
        }
        lemma_shorter_run(a, asked, a_filled, a_results);
        lemma_shorter_run(b, asked, b_filled, b_results);
        law_runs_agree(
            a.drop_last(),
            a_filled.drop_last(),
            a_results.drop_last(),
            b.drop_last(),
            b_filled.drop_last(),
            b_results.drop_last(),
            asked.drop_last(),
        );
        law_backing_is_invisible(
            a[n],
            a[n + 1],
            a_filled[n],
            a_results[n],
            b[n],
            b[n + 1],
            b_filled[n],
            b_results[n],
            asked[n],
        );
        assert(a_results =~= a_results.drop_last().push(a_results[n]));
        assert(b_results =~= b_results.drop_last().push(b_results[n]));
    } else {
        assert(a_results =~= b_results);
    }
}

/// Over a stream of frames a read fails only if zstd does.
pub proof fn law_only_zstd_fails(
    before: Decoder<'_>,
    after: Decoder<'_>,
    asked: Seq<u8>,
    filled: Seq<u8>,
    r: Result<usize, DecodeError>,
)
    requires
        before.wf(),
        before.reads(after, asked, filled, r),
        crate::frame::well_formed(before.data()),
    ensures
        r is Err <==> asked.len() > 0 && after.history().last().report is Err,
        r matches Err(e) ==> e is InvalidData,
{
}

/// At every step zstd has been given all of the input that it had not consumed, and what
/// it consumed is the input up to the cursor.
pub proof fn law_zstd_gets_the_rest(d: Decoder<'_>)
    requires
        d.wf(),
    ensures
        crate::stream::in_order(d.history(), d.data()),
        crate::stream::fed(d.history()) == d.consumed(),
{
}

/// A decoder keeps to its input, and has given up exactly the pages that lie far
/// enough behind it.
pub proof fn law_cursor_stays_valid(d: Decoder<'_>)
    requires
        d.wf(),
    ensures
        d.cursor().wf(d.data().len() as int),
{
}

/// The ranges that the steps of a decoder name tile the pages that it has given up:
/// they are made of whole pages, leave no gap, do not overlap and end where the
/// decoder has stopped giving pages up, however its reads end.
pub proof fn law_named_pages_tile(
    before: Decoder<'_>,
    after: Decoder<'_>,
    asked: Seq<u8>,
    filled: Seq<u8>,
    outcome: ReadOutcome,
    named: Seq<Retirement>,
)
    requires
        before.wf(),
        after.wf(),
        before.reads(after, asked, filled, outcome.result),
        after.cursor().handed_pos == after.cursor().retire_pos,
        outcome.retire == crate::cursor::retirement_between(
            before.cursor().handed_pos,
            after.cursor().retire_pos,
        ),
        crate::cursor::tiles(named, before.cursor().handed_pos as int),
    ensures
        before.cursor().retire_pos <= after.cursor().retire_pos,
        match outcome.retire {
            Some(range) => crate::cursor::tiles(
                named.push(range),
                after.cursor().retire_pos as int,
            ),
            None => crate::cursor::tiles(named, after.cursor().retire_pos as int),
        },
{
    let reached = after.cursor().with_handed(before.cursor().handed_pos);
    crate::cursor::law_frontier_is_monotonic(
        before.cursor().in_pos as int,
        after.cursor().in_pos as int,
    );
    crate::cursor::law_retirements_tile(named, reached, after.data().len() as int);
}

/// A read into a buffer with room is one step of zstd and no more: it is given all of the
/// input that had not been consumed, and all of the buffer, and its report is what the read
/// goes by. If the step fails, the read fails with its error, and nothing else happens; if
/// not, the bytes that it wrote are delivered, and the decoder moves on by those that it
/// read, unless nothing was written, the input is used up and a frame is open: then the
/// input is cut off.
pub proof fn law_read_is_one_step(
    before: Decoder<'_>,
    after: Decoder<'_>,
    asked: Seq<u8>,
    filled: Seq<u8>,
    r: Result<usize, DecodeError>,
)
    requires
        before.wf(),
        before.reads(after, asked, filled, r),
        asked.len() > 0,
    ensures
        ({
            let step = after.history().last();
            let from = before.cursor();
            let to = after.cursor();
            &&& after.history().len() == before.history().len() + 1
            &&& after.history().drop_last() == before.history()
            &&& step.input == before.data().skip(from.in_pos as int)
            &&& step.room == asked.len()
            &&& after.data() == before.data()
            &&& after.hints() == before.hints()
            &&& to.file_backed == from.file_backed
            &&& match step.report {
                Err(e) => {
                    &&& r == Err::<usize, DecodeError>(DecodeError::InvalidData(e))
                    &&& to.in_pos == from.in_pos && to.retire_pos == from.retire_pos
                    &&& after.produced() == before.produced()
                },
                Ok(s) => {
                    &&& to.in_pos == from.in_pos + s.bytes_read
                    &&& to.retire_pos == (if from.file_backed {
                        crate::cursor::frontier(to.in_pos as int)
                    } else {
                        0
                    })
                    &&& to.frame_open <==> s.remaining != 0 && (from.frame_open || s.bytes_read > 0
                        || s.bytes_written > 0)
                    &&& after.produced() == before.produced() + filled.take(s.bytes_written as int)
                    &&& if s.bytes_written == 0 && to.frame_open && to.in_pos == before.data().len() {
                        r == Err::<usize, DecodeError>(DecodeError::Truncated)
                    } else {
                        r == Ok::<usize, DecodeError>(s.bytes_written)
                    }
                },
            }
        }),
{
    let step = after.history().last();
    assert(before.history().push(step).drop_last() =~= before.history());
    if let Ok(s) = step.report {
        crate::cursor::law_step_moves_the_cursor(
            before.cursor(),
            before.data().len() as int,
            s,
        );
    }
}

/// A read into a buffer without room changes nothing.
pub proof fn law_empty_read_does_nothing(
    before: Decoder<'_>,
    after: Decoder<'_>,
    filled: Seq<u8>,
    r: Result<usize, DecodeError>,
)
    requires
        before.reads(after, Seq::empty(), filled, r),
    ensures
        r == Ok::<usize, DecodeError>(0),
        after.data() == before.data(),
        after.history() == before.history(),
        after.cursor().in_pos == before.cursor().in_pos,
        after.cursor().retire_pos == before.cursor().retire_pos,
        after.cursor().frame_open == before.cursor().frame_open,
{
}

/// A new decoder has consumed and delivered nothing and given nothing up, and over no
/// data at all it stands at the end already.
pub proof fn law_new_decoder(d: Decoder<'_>)
    requires
        d.wf(),
        d.fresh(),
    ensures
        d.produced() == Seq::<u8>::empty(),
        d.cursor().in_pos == 0,
        d.cursor().retire_pos == 0,
        d.data().len() == 0 ==> d.at_end(),
{
}

} // verus!
