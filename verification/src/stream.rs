//! The zstd streaming decoder, and what this library relies on about it.
use vstd::prelude::*;
use zstd::stream::raw::{Decoder as ZstdDecoder, Operation};

verus! {

/// `std::io::Error`, carried through unopened.
#[verifier::external_type_specification]
#[verifier::external_body]
pub struct ExIoError(std::io::Error);

/// `zstd::stream::raw::Decoder`, the state of one zstd decompression stream.
#[verifier::external_type_specification]
#[verifier::external_body]
pub struct ExZstdDecoder<'a>(ZstdDecoder<'a>);

/// What one step of decompression did.
#[derive(Debug, Clone, Copy, PartialEq, Eq)]
pub struct Status {
    /// Zero at the end of a frame; otherwise a hint at the input still needed.
    pub remaining: usize,
    /// Bytes taken from the input.
    pub bytes_read: usize,
    /// Bytes put into the output.
    pub bytes_written: usize,
}

/// One call on a decoder: what was put before it, and what it answered.
pub struct Step {
    /// The input.
    pub input: Seq<u8>,
    /// The length of the output buffer.
    pub room: nat,
    /// The bytes at the front of the output buffer that the step counts as written.
    pub output: Seq<u8>,
    /// The answer.
    pub report: Result<Status, std::io::Error>,
}

/// The calls on `d` so far, in order.
pub uninterp spec fn history(d: ZstdDecoder<'static>) -> Seq<Step>;

/// Whether `d` held, after its last successful call, decompressed bytes that no output
/// buffer had room for yet.
pub uninterp spec fn pending(d: ZstdDecoder<'static>) -> bool;

impl Step {
    /// The input that the step consumed. A failed one counts for nothing.
    pub open spec fn taken(self) -> Seq<u8> {
        match self.report {
            Ok(s) => self.input.take(s.bytes_read as int),
            Err(_) => Seq::empty(),
        }
    }
}

/// The compressed bytes that the steps `h` consumed, in order.
pub open spec fn fed(h: Seq<Step>) -> Seq<u8>
    decreases h.len(),
{
    if h.len() == 0 {
        Seq::empty()
    } else {
        fed(h.drop_last()) + h.last().taken()
    }
}

/// The decompressed bytes that the steps `h` wrote, in order.
pub open spec fn produced(h: Seq<Step>) -> Seq<u8>
    decreases h.len(),
{
    if h.len() == 0 {
        Seq::empty()
    } else {
        produced(h.drop_last()) + h.last().output
    }
}

/// The compressed bytes that were put before a decoder in the steps `h`: those it
/// consumed, and after them the part of the latest input that it has left.
pub open spec fn offered(h: Seq<Step>) -> Seq<u8>
    decreases h.len(),
{
    if h.len() == 0 {
        Seq::empty()
    } else if h.last().report is Ok {
        fed(h.drop_last()) + h.last().input
    } else {
        offered(h.drop_last())
    }
}

/// Whether the last of the steps `h` failed.
pub open spec fn broken(h: Seq<Step>) -> bool {
    h.len() > 0 && h.last().report is Err
}

/// Whether a decoder stands between two frames after the steps `h`: it is new, or has
/// just come to the end of a frame, and has been put no input before since.
pub open spec fn between_frames(h: Seq<Step>) -> bool
    decreases h.len(),
{
    h.len() == 0 || match h.last().report {
        Ok(s) => s.remaining == 0 || (h.last().input.len() == 0 && between_frames(h.drop_last())),
        Err(_) => false,
    }
}

/// Whether each of the steps `h` was given all of `data` that had not been consumed.
pub open spec fn in_order(h: Seq<Step>, data: Seq<u8>) -> bool
    decreases h.len(),
{
    h.len() == 0 || {
        &&& in_order(h.drop_last(), data)
        &&& h.last().input == data.skip(fed(h.drop_last()).len() as int)
    }
}

/// What one more step adds.
pub proof fn lemma_one_more(h: Seq<Step>, s: Step)
    ensures
        fed(h.push(s)) == fed(h) + s.taken(),
        produced(h.push(s)) == produced(h) + s.output,
        offered(h.push(s)) == (if s.report is Ok {
            fed(h) + s.input
        } else {
            offered(h)
        }),
        h.push(s).last() == s,
        h.push(s).drop_last() == h,
{
    assert(h.push(s).drop_last() =~= h);
}

/// Calls `zstd::stream::raw::Decoder::new`.
///
/// Trusted: the call does not fail. It panics where the memory for a context cannot be
/// had; setting a context up without a dictionary has nothing to fail at. No call has
/// been made on a new decoder, and it holds nothing back.
#[verifier::external_body]
pub(crate) fn new_decoder() -> (r: Result<ZstdDecoder<'static>, std::io::Error>)
    ensures
        r is Ok,
        r matches Ok(d) ==> history(d) == Seq::<Step>::empty() && !pending(d),
{
    ZstdDecoder::new()
}

/// What a successful step, which turned `before` into `after`, owes if the input so
/// far is the beginning of the stream of the frames `parts`.
pub open spec fn step_faithful(
    before: ZstdDecoder<'static>,
    after: ZstdDecoder<'static>,
    parts: Seq<Seq<u8>>,
) -> bool {
    let h = history(after);
    let step = h.last();
    let s = step.report->Ok_0;
    let short = step.input.len() > 0 && s.remaining != 0;
    &&& produced(h).is_prefix_of(crate::frame::contents(parts))
    &&& s.remaining == 0 ==> crate::frame::at_boundary(fed(h), produced(h), parts)
    &&& s.remaining == 0 ==> s.bytes_read > 0 || s.bytes_written > 0
    &&& short ==> pending(after) || s.bytes_read == step.input.len()
    &&& short && offered(h) == crate::frame::joined(parts) ==> pending(after) && s.bytes_read
        < step.input.len()
    &&& pending(after) ==> s.bytes_written == step.room
    &&& pending(before) && step.room > 0 ==> s.bytes_written > 0
}

/// Calls `run_on_buffers` of `zstd::stream::raw::Operation` on a decoder, which is
/// one call of `ZSTD_decompressStream`.
///
/// The caller puts the whole stream before the decoder at once, and at each later call
/// what is left of it: within one call zstd may look a frame up from its beginning.
///
/// Trusted, of every stream: a step takes a prefix of the input and fills a prefix of
/// the output, of the lengths it reports; after a failed step all others fail; and a
/// decoder that stands between two frames and is given no input does nothing, without
/// failing. If a whole frame is all the input there is, and there is room for its
/// content, one step delivers it.
///
/// Trusted, of a stream of frames, whole or cut off: what has been written is the
/// beginning of its content; a step that reports the end of a frame has made some
/// progress, and has written all of the content up to there; one that stops short of
/// it holds decompressed bytes back or has used the input up, and if the stream is
/// whole, leaves both input and decompressed bytes behind; bytes are held back only
/// where the output is full, and handed out first by the next step.
///
/// Not said: when a step with input fails, which depends on the memory at hand besides
/// the stream; what a step reports of other streams; and what stands in the output
/// behind the bytes written.
#[verifier::external_body]
pub(crate) fn run_on_buffers(
    d: &mut ZstdDecoder<'static>,
    input: &[u8],
    output: &mut [u8],
) -> (r: Result<Status, std::io::Error>)
    requires
        offered(history(*old(d))).len() == 0 || offered(history(*old(d))) == fed(history(*old(d)))
            + input@,
    ensures
        final(output)@.len() == old(output)@.len(),
        history(*final(d)) == history(*old(d)).push(
            (Step {
                input: input@,
                room: old(output)@.len(),
                output: match r {
                    Ok(s) => final(output)@.take(s.bytes_written as int),
                    Err(_) => Seq::empty(),
                },
                report: r,
            }),
        ),
        r matches Ok(s) ==> s.bytes_read <= input@.len() && s.bytes_written <= old(output)@.len(),
        r is Err ==> pending(*final(d)) == pending(*old(d)),
        broken(history(*old(d))) ==> r is Err,
        between_frames(history(*old(d))) && input@.len() == 0 ==> (r matches Ok(s) && s.remaining
            != 0 && s.bytes_read == 0 && s.bytes_written == 0),
        r matches Ok(s) ==> (crate::frame::frame_content(input@) matches Some(c) ==> (
        between_frames(history(*old(d))) && c.len() <= old(output)@.len() ==> s.remaining == 0
            && s.bytes_read == input@.len() && final(output)@.take(s.bytes_written as int) == c)),
        r is Ok ==> forall|parts: Seq<Seq<u8>>|
            #[trigger] crate::frame::begins(fed(history(*old(d))) + input@, parts)
                ==> step_faithful(*old(d), *final(d), parts),
{
    let s = d.run_on_buffers(input, output)?;
    Ok(Status { remaining: s.remaining, bytes_read: s.bytes_read, bytes_written: s.bytes_written })
}

/// Where a decoder stands after one more step: between two frames, if that step ended one,
/// or if it stood there before and the step had no input; never, if the step failed.
pub proof fn law_one_more_step(h: Seq<Step>, s: Step)
    ensures
        between_frames(Seq::empty()),
        fed(Seq::empty()) == Seq::<u8>::empty(),
        produced(Seq::empty()) == Seq::<u8>::empty(),
        s.report matches Ok(status) ==> {
            &&& s.taken() == s.input.take(status.bytes_read as int)
            &&& !broken(h.push(s))
            &&& between_frames(h.push(s)) <==> status.remaining == 0 || (s.input.len() == 0
                && between_frames(h))
        },
        s.report is Err ==> s.taken() == Seq::<u8>::empty() && broken(h.push(s))
            && !between_frames(h.push(s)),
{
    lemma_one_more(h, s);
}

} // verus!
