//! Zstandard frames, and the streams that are made of them.
use vstd::prelude::*;

verus! {

/// What `frame` decompresses to, if it is one well-formed frame of the Zstandard
/// format (RFC 8878) that needs no dictionary, or a skippable frame, which has no
/// content; `None` if it is anything else.
pub uninterp spec fn frame_content(frame: Seq<u8>) -> Option<Seq<u8>>;

/// Whether `s` may be the beginning of a frame with content: it goes along with the
/// magic number of the format, or of one of its predecessors that can still be
/// decoded, leaves the reserved bit of the frame header alone, and asks for no window
/// that is larger than 3.75 GiB.
pub open spec fn like_data_frame(s: Seq<u8>) -> bool {
    &&& s.len() > 0 ==> 0x24 <= s[0] <= 0x28
    &&& s.len() > 1 ==> s[1] == 0xb5
    &&& s.len() > 2 ==> s[2] == 0x2f
    &&& s.len() > 3 ==> s[3] == 0xfd
    &&& s.len() > 4 && s[0] == 0x28 ==> s[4] / 8 % 2 == 0
    &&& s.len() > 5 && s[0] == 0x28 && s[4] / 32 % 2 == 0 ==> s[5] / 8 <= 21
}

/// Whether `s` may be the beginning of a skippable frame.
pub open spec fn like_skippable_frame(s: Seq<u8>) -> bool {
    &&& s.len() > 0 ==> 0x50 <= s[0] <= 0x5f
    &&& s.len() > 1 ==> s[1] == 0x2a
    &&& s.len() > 2 ==> s[2] == 0x4d
    &&& s.len() > 3 ==> s[3] == 0x18
}

/// Whether `s` may be the beginning of a stream: it is empty, or begins like a frame.
pub open spec fn may_begin_frame(s: Seq<u8>) -> bool {
    like_data_frame(s) || like_skippable_frame(s)
}

/// Whether `frame` is laid out as the format has it: a magic number in little-endian
/// order; behind that of a frame with content a descriptor whose reserved bit is clear,
/// and unless the descriptor says that the content is one segment, a window whose
/// exponent is not too large.
pub open spec fn laid_out(frame: Seq<u8>) -> bool {
    let magic = frame[0] + 0x100 * frame[1] + 0x1_0000 * frame[2] + 0x100_0000 * frame[3];
    ||| 0x184D_2A50 <= magic <= 0x184D_2A5F
    ||| 0xFD2F_B524 <= magic <= 0xFD2F_B527
    ||| {
        &&& magic == 0xFD2F_B528
        &&& (frame[4] & 0x08) == 0
        &&& (frame[4] & 0x20) != 0 || 10 + (frame[5] >> 3) <= 31
    }
}

/// Whether `frame` is one frame, with a window that can be asked for. None is shorter
/// than the header of a skippable one.
pub open spec fn is_frame(frame: Seq<u8>) -> bool {
    frame.len() >= 8 && laid_out(frame) && frame_content(frame) is Some
}

/// Whether `parts` are frames.
pub open spec fn frames(parts: Seq<Seq<u8>>) -> bool {
    forall|k: int| 0 <= k < parts.len() ==> is_frame(#[trigger] parts[k])
}

/// The stream that consists of `parts`.
pub open spec fn joined(parts: Seq<Seq<u8>>) -> Seq<u8>
    decreases parts.len(),
{
    if parts.len() == 0 {
        Seq::empty()
    } else {
        joined(parts.drop_last()) + parts.last()
    }
}

/// The content of the stream that consists of the frames `parts`.
pub open spec fn contents(parts: Seq<Seq<u8>>) -> Seq<u8>
    decreases parts.len(),
{
    if parts.len() == 0 {
        Seq::empty()
    } else {
        contents(parts.drop_last()) + frame_content(parts.last())->Some_0
    }
}

/// Whether `stream` is the beginning of the stream of the frames `parts`, or all of
/// it.
pub open spec fn begins(stream: Seq<u8>, parts: Seq<Seq<u8>>) -> bool {
    frames(parts) && stream.is_prefix_of(joined(parts))
}

/// Whether `stream` is the stream of the frames `parts`.
pub open spec fn consists(stream: Seq<u8>, parts: Seq<Seq<u8>>) -> bool {
    frames(parts) && stream == joined(parts)
}

/// Whether `stream` is the beginning of the stream of the frames `parts`, and ends inside
/// one of them.
pub open spec fn cut_inside(stream: Seq<u8>, parts: Seq<Seq<u8>>) -> bool {
    &&& begins(stream, parts)
    &&& forall|k: int| 0 <= k <= parts.len() ==> stream != joined(#[trigger] parts.take(k))
}

/// Whether `stream` is a sequence of frames and nothing else.
pub open spec fn well_formed(stream: Seq<u8>) -> bool {
    exists|parts: Seq<Seq<u8>>| consists(stream, parts)
}

/// Whether a frame other than the last one has no content: an empty frame, or a
/// skippable one.
pub open spec fn silent(parts: Seq<Seq<u8>>) -> bool {
    exists|k: int|
        0 <= k < parts.len() - 1 && frame_content(#[trigger] parts[k]) == Some(Seq::<u8>::empty())
}

/// Whether `stream` is the first `k` of the frames `parts`, and `out` their content.
pub open spec fn stands_after(
    stream: Seq<u8>,
    out: Seq<u8>,
    parts: Seq<Seq<u8>>,
    k: int,
) -> bool {
    &&& 0 <= k <= parts.len()
    &&& stream == joined(parts.take(k))
    &&& out == contents(parts.take(k))
}

/// Whether `stream` ends where one of the frames `parts` ends, or is empty, and `out`
/// is its content.
pub open spec fn at_boundary(stream: Seq<u8>, out: Seq<u8>, parts: Seq<Seq<u8>>) -> bool {
    exists|k: int| #[trigger] stands_after(stream, out, parts, k)
}

/// Whether `data` may be the beginning of a stream.
pub fn begins_like_a_frame(data: &[u8]) -> (r: bool)
    ensures
        r == may_begin_frame(data@),
{
    let len: usize = data.len();
    if len == 0 {
        return true;
    }
    let skippable: bool = 0x50 <= data[0] && data[0] <= 0x5f;
    if !skippable && !(0x24 <= data[0] && data[0] <= 0x28) {
        return false;
    }
    if len > 1 && data[1] != (if skippable { 0x2au8 } else { 0xb5u8 }) {
        return false;
    }
    if len > 2 && data[2] != (if skippable { 0x4du8 } else { 0x2fu8 }) {
        return false;
    }
    if len > 3 && data[3] != (if skippable { 0x18u8 } else { 0xfdu8 }) {
        return false;
    }
    if len > 4 && data[0] == 0x28 && data[4] / 8 % 2 != 0 {
        return false;
    }
    !(len > 5 && data[0] == 0x28 && data[4] / 32 % 2 == 0 && data[5] / 8 > 21)
}

/// Where the first `i` frames end, the first `j` go on: with more input, if there are
/// more of them, and with more content, unless those that are added have none.
pub proof fn lemma_take_grows(parts: Seq<Seq<u8>>, i: int, j: int)
    requires
        frames(parts),
        0 <= i <= j <= parts.len(),
    ensures
        joined(parts.take(i)).is_prefix_of(joined(parts.take(j))),
        contents(parts.take(i)).is_prefix_of(contents(parts.take(j))),
        i < j ==> joined(parts.take(i)).len() < joined(parts.take(j)).len(),
        i < j && contents(parts.take(i)).len() == contents(parts.take(j)).len()
            ==> frame_content(parts[i]) == Some(Seq::<u8>::empty()),
    decreases j - i,
{
    if i < j {
        lemma_take_grows(parts, i, j - 1);
        let longer = parts.take(j);
        assert(longer.drop_last() =~= parts.take(j - 1));
        assert(longer.last() == parts[j - 1]);
        assert(is_frame(parts[j - 1]));
        let added = frame_content(parts[j - 1])->Some_0;
        if i == j - 1 && added.len() == 0 {
            assert(added =~= Seq::<u8>::empty());
        }
    }
}

/// The first frames of a stream are the beginning of it, and their content is the
/// beginning of its content.
pub proof fn lemma_boundary(stream: Seq<u8>, out: Seq<u8>, parts: Seq<Seq<u8>>)
    requires
        frames(parts),
        at_boundary(stream, out, parts),
    ensures
        stream.is_prefix_of(joined(parts)),
        out.is_prefix_of(contents(parts)),
        stream == joined(parts) ==> out == contents(parts),
        well_formed(stream),
{
    let k = choose|k: int| #[trigger] stands_after(stream, out, parts, k);
    lemma_take_grows(parts, k, parts.len() as int);
    assert(parts.take(parts.len() as int) =~= parts);
    assert(consists(stream, parts.take(k)));
}

/// Two boundaries in one stream with the same content: unless they are the same, a
/// frame without content lies between them.
pub proof fn lemma_silence(
    a: Seq<u8>,
    b: Seq<u8>,
    out: Seq<u8>,
    parts: Seq<Seq<u8>>,
)
    requires
        frames(parts),
        at_boundary(a, out, parts),
        at_boundary(b, out, parts),
        a.len() < b.len() < joined(parts).len(),
    ensures
        silent(parts),
{
    let i = choose|k: int| #[trigger] stands_after(a, out, parts, k);
    let j = choose|k: int| #[trigger] stands_after(b, out, parts, k);
    if j <= i {
        lemma_take_grows(parts, j, i);
    }
    lemma_take_grows(parts, i, j);
    assert(parts.take(parts.len() as int) =~= parts);
    assert(j < parts.len());
    assert(frame_content(parts[i]) == Some(Seq::<u8>::empty()));
}

proof fn lemma_one_frame(one: Seq<Seq<u8>>)
    requires
        one.len() == 1,
    ensures
        joined(one) == one[0],
        contents(one) == frame_content(one[0])->Some_0,
{
    let none = one.drop_last();
    assert(joined(none) =~= Seq::<u8>::empty());
    assert(contents(none) =~= Seq::<u8>::empty());
    assert(joined(one) =~= one[0]);
    assert(contents(one) =~= frame_content(one[0])->Some_0);
}

/// The empty stream stands at the beginning of every other.
pub proof fn lemma_start(parts: Seq<Seq<u8>>)
    ensures
        at_boundary(Seq::<u8>::empty(), Seq::<u8>::empty(), parts),
{
    assert(parts.take(0) =~= Seq::<Seq<u8>>::empty());
    assert(stands_after(Seq::<u8>::empty(), Seq::<u8>::empty(), parts, 0));
}

/// Streams can be joined: the frames of the one are followed by those of the other,
/// and so is the content. If the first has no frame without content, and the second
/// none but at its end, neither has the whole.
pub proof fn law_streams_join(a: Seq<Seq<u8>>, b: Seq<Seq<u8>>)
    requires
        frames(a),
        frames(b),
    ensures
        consists(joined(a) + joined(b), a + b),
        contents(a + b) == contents(a) + contents(b),
        !silent(b) && (forall|k: int|
            0 <= k < a.len() ==> frame_content(#[trigger] a[k]) != Some(Seq::<u8>::empty()))
            ==> !silent(a + b),
    decreases b.len(),
{
    let both = a + b;
    assert forall|k: int| 0 <= k < both.len() implies is_frame(#[trigger] both[k]) by {
        if k < a.len() {
            assert(both[k] == a[k]);
        } else {
            assert(both[k] == b[k - a.len()]);
        }
    }
    if b.len() == 0 {
        assert(both =~= a);
        assert(joined(a) + joined(b) =~= joined(a));
        assert(contents(a) + contents(b) =~= contents(a));
    } else {
        assert forall|k: int| 0 <= k < b.drop_last().len() implies is_frame(
            #[trigger] b.drop_last()[k],
        ) by {
            assert(b.drop_last()[k] == b[k]);
        }
        law_streams_join(a, b.drop_last());
        assert(both.drop_last() =~= a + b.drop_last());
        assert(joined(a) + joined(b) =~= joined(both));
        assert(contents(a) + contents(b) =~= contents(both));
    }
    if silent(both) {
        let k = choose|k: int|
            0 <= k < both.len() - 1 && frame_content(#[trigger] both[k]) == Some(
                Seq::<u8>::empty(),
            );
        if k < a.len() {
            assert(both[k] == a[k]);
        } else {
            assert(both[k] == b[k - a.len()]);
        }
    }
}

/// One frame is a stream, and its content is that of the stream.
pub proof fn law_frame_is_a_stream(frame: Seq<u8>)
    requires
        is_frame(frame),
    ensures
        consists(frame, seq![frame]),
        contents(seq![frame]) == frame_content(frame)->Some_0,
        !silent(seq![frame]),
{
    let one = seq![frame];
    lemma_one_frame(one);
}

/// A stream begins like a frame, however early it is cut off.
pub proof fn law_streams_begin_like_frames(stream: Seq<u8>, parts: Seq<Seq<u8>>)
    requires
        begins(stream, parts),
    ensures
        may_begin_frame(stream),
{
    if stream.len() > 0 {
        if parts.len() == 0 {
            assert(joined(parts).len() == 0);
        }
        lemma_take_grows(parts, 1, parts.len() as int);
        assert(parts.take(parts.len() as int) =~= parts);
        lemma_one_frame(parts.take(1));
        let first = parts[0];
        assert(is_frame(first));
        let whole = joined(parts);
        assert(first == whole.take(first.len() as int));
        assert(stream == whole.take(stream.len() as int));
        law_header_test(first);
        assert forall|i: int| 0 <= i < 6 && i < stream.len() implies stream[i] == first[i] by {
            assert(stream[i] == whole[i]);
            assert(first[i] == whole[i]);
        }
    }
}

/// What the test of a header comes to, bit by bit: a stream of six bytes or more is taken
/// for a frame just if it begins with a magic number, in little-endian order, of a
/// skippable frame, of a frame of one of the earlier formats, or of a frame whose
/// descriptor has its reserved bit clear and whose window, if the descriptor announces
/// one, is at most of exponent 31. No other bit of the descriptor matters: neither the
/// flag of the checksum nor the sizes of the fields that follow. What is taken for a
/// frame and has a content is one.
pub proof fn law_header_test(s: Seq<u8>)
    requires
        s.len() >= 6,
    ensures
        ({
            let magic = s[0] + 0x100 * s[1] + 0x1_0000 * s[2] + 0x100_0000 * s[3];
            let accepted = {
                ||| 0x184D_2A50 <= magic <= 0x184D_2A5F
                ||| 0xFD2F_B524 <= magic <= 0xFD2F_B527
                ||| magic == 0xFD2F_B528 && (s[4] & 0x08) == 0 && ((s[4] & 0x20) != 0 || 10 + (s[5]
                    >> 3) <= 31)
            };
            &&& may_begin_frame(s) <==> accepted
            &&& is_frame(s) <==> s.len() >= 8 && accepted && frame_content(s) is Some
        }),
{
    let d = s[4];
    let w = s[5];
    assert((d & 0x08) == 0 <==> d / 8 % 2 == 0) by (bit_vector);
    assert((d & 0x20) == 0 <==> d / 32 % 2 == 0) by (bit_vector);
    assert(w >> 3 == w / 8) by (bit_vector);
}

/// Data that is too short to hold a header is taken for the beginning of a frame just if
/// it can be continued to one; and cutting data short never makes it look worse.
pub proof fn law_short_headers(s: Seq<u8>, k: int)
    requires
        0 <= k <= s.len(),
    ensures
        may_begin_frame(s) ==> may_begin_frame(s.take(k)),
        may_begin_frame(s) ==> exists|t: Seq<u8>|
            (s + t).len() >= 6 && #[trigger] may_begin_frame(s + t),
{
    if may_begin_frame(s) {
        let whole: Seq<u8> = if like_skippable_frame(s) {
            seq![0x50u8, 0x2a, 0x4d, 0x18, 0, 0]
        } else {
            seq![0x28u8, 0xb5, 0x2f, 0xfd, 0, 0]
        };
        let t = if s.len() < 6 {
            whole.skip(s.len() as int)
        } else {
            Seq::empty()
        };
        assert(may_begin_frame(s + t));
    }
}

/// Every cut of a stream of frames is the beginning of it, and the stream is well formed.
pub proof fn law_cuts_begin_streams(parts: Seq<Seq<u8>>, k: int)
    requires
        forall|i: int| 0 <= i < parts.len() ==> is_frame(#[trigger] parts[i]),
        0 <= k <= joined(parts).len(),
    ensures
        begins(joined(parts).take(k), parts),
        well_formed(joined(parts)),
        (forall|i: int|
            0 <= i <= parts.len() ==> joined(parts).take(k) != joined(#[trigger] parts.take(i)))
            ==> cut_inside(joined(parts).take(k), parts),
{
    assert(consists(joined(parts), parts));
    assert(joined(parts).take(k) =~= joined(parts).take(joined(parts).take(k).len() as int));
}

} // verus!
