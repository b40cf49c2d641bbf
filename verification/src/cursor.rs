//! Where a decoder stands in its compressed input, and which of the pages behind
//! it can be given back.
use vstd::prelude::*;

use crate::stream::Status;

verus! {

/// Consumed input that is kept resident behind the cursor: 4 MiB.
pub const RETIRE_WINDOW: usize = 4194304;

/// The page size that retired ranges are aligned to.
pub const PAGE: usize = 4096;

/// A range of a mapping whose pages will not be read again.
#[derive(Debug, Clone, Copy, PartialEq, Eq, Structural)]
pub struct Retirement {
    /// Where the range begins.
    pub offset: usize,
    /// How long it is.
    pub len: usize,
}

/// The input ended inside a frame.
#[derive(Debug, Clone, Copy, PartialEq, Eq, Structural)]
pub struct Truncated;

/// A position in compressed input.
#[derive(Debug, Clone, Copy, PartialEq, Eq, Structural)]
pub struct Cursor {
    /// Input before this offset has been consumed.
    pub in_pos: usize,
    /// Pages before this offset are given up.
    pub retire_pos: usize,
    /// Pages before this offset have been named as given up.
    pub handed_pos: usize,
    /// Whether a frame has begun and not ended yet.
    pub frame_open: bool,
    /// Whether the input is a file mapping, whose pages can be given back.
    pub file_backed: bool,
}

/// The largest page boundary that is at least [`RETIRE_WINDOW`] behind `in_pos`,
/// or zero.
pub open spec fn frontier(in_pos: int) -> int {
    if in_pos < RETIRE_WINDOW {
        0
    } else {
        (in_pos - RETIRE_WINDOW) / PAGE as int * PAGE as int
    }
}

/// The range between two frontiers, if there is one.
pub open spec fn retirement_between(from: usize, to: usize) -> Option<Retirement> {
    if to > from {
        Some(Retirement { offset: from, len: (to - from) as usize })
    } else {
        None
    }
}

/// Whether the ranges `rs` are made of whole pages, follow each other without a gap and
/// together are the first `end` bytes.
pub open spec fn tiles(rs: Seq<Retirement>, end: int) -> bool
    decreases rs.len(),
{
    if rs.len() == 0 {
        end == 0
    } else {
        let last = rs.last();
        &&& last.len > 0
        &&& last.len % PAGE == 0
        &&& last.offset + last.len == end
        &&& tiles(rs.drop_last(), last.offset as int)
    }
}

/// How far pages may be given up once `in_pos` bytes are consumed.
pub fn retire_frontier(in_pos: usize) -> (r: usize)
    ensures
        r == frontier(in_pos as int),
{
    let behind: usize = in_pos.saturating_sub(RETIRE_WINDOW);
    assert(behind & !4095usize == behind / 4096 * 4096) by (bit_vector);
    behind & !(PAGE - 1)
}

impl Cursor {
    /// The cursor is inside its input, exactly the pages that lie far enough behind it
    /// are given up, and none but these have been named, page by page.
    pub open spec fn wf(self, len: int) -> bool {
        &&& self.in_pos <= len
        &&& self.retire_pos == (if self.file_backed {
            frontier(self.in_pos as int)
        } else {
            0
        })
        &&& self.handed_pos <= self.retire_pos
        &&& self.handed_pos % PAGE == 0
    }

    /// The cursor at the start of its input.
    pub open spec fn at_start(self) -> bool {
        self.in_pos == 0 && self.retire_pos == 0 && self.handed_pos == 0 && !self.frame_open
    }

    /// The cursor after its pages were retired as far as they may be.
    pub open spec fn retired(self) -> Cursor {
        if self.file_backed && frontier(self.in_pos as int) > self.retire_pos {
            Cursor { retire_pos: frontier(self.in_pos as int) as usize, ..self }
        } else {
            self
        }
    }

    /// The cursor, but for the pages that have been named.
    pub open spec fn with_handed(self, handed_pos: usize) -> Cursor {
        Cursor { handed_pos, ..self }
    }

    /// The cursor after all pages that are given up were named.
    pub open spec fn handed_out(self) -> Cursor {
        if self.retire_pos > self.handed_pos {
            self.with_handed(self.retire_pos)
        } else {
            self
        }
    }

    /// The cursor after a step of decompression, before any page is retired.
    pub open spec fn moved(self, s: Status) -> Cursor {
        Cursor {
            in_pos: (self.in_pos + s.bytes_read) as usize,
            frame_open: s.remaining != 0 && (self.frame_open || s.bytes_read > 0 || s.bytes_written
                > 0),
            ..self
        }
    }

    /// Whether a step that took this cursor to the end of an input of `len` bytes
    /// shows the input to be cut short.
    pub open spec fn cut_short(self, len: int, s: Status) -> bool {
        s.bytes_written == 0 && self.moved(s).frame_open && self.in_pos + s.bytes_read == len
    }

    /// A cursor at the start of an input.
    pub fn new(file_backed: bool) -> (r: Cursor)
        ensures
            r.at_start(),
            r.file_backed == file_backed,
            forall|len: int| 0 <= len ==> #[trigger] r.wf(len),
    {
        Cursor { in_pos: 0, retire_pos: 0, handed_pos: 0, frame_open: false, file_backed }
    }

    /// Gives up the pages that have fallen far enough behind.
    ///
    /// Only a file mapping has pages to give up.
    pub fn maybe_retire(&mut self)
        ensures
            *final(self) == old(self).retired(),
    {
        if !self.file_backed {
            return;
        }
        let new_frontier: usize = retire_frontier(self.in_pos);
        if new_frontier > self.retire_pos {
            self.retire_pos = new_frontier;
        }
    }

    /// The pages that were given up since the last call, if there are any.
    pub fn hand_out(&mut self) -> (r: Option<Retirement>)
        ensures
            *final(self) == old(self).handed_out(),
            r == retirement_between(old(self).handed_pos, old(self).retire_pos),
    {
        if self.retire_pos > self.handed_pos {
            let range = Retirement {
                offset: self.handed_pos,
                len: self.retire_pos - self.handed_pos,
            };
            self.handed_pos = self.retire_pos;
            Some(range)
        } else {
            None
        }
    }

    /// Takes in what one step of decompression did to an input of `len` bytes, and
    /// returns how many bytes it delivered.
    ///
    /// A step that delivers nothing, at the end of the input and inside a frame,
    /// shows that the input was cut short.
    pub fn advance(&mut self, len: usize, s: Status) -> (r: Result<usize, Truncated>)
        requires
            old(self).in_pos + s.bytes_read <= len,
        ensures
            *final(self) == old(self).moved(s).retired(),
            old(self).wf(len as int) ==> final(self).wf(len as int),
            r == (if old(self).cut_short(len as int, s) {
                Err::<usize, Truncated>(Truncated)
            } else {
                Ok(s.bytes_written)
            }),
    {
        self.in_pos = self.in_pos + s.bytes_read;
        self.frame_open = s.remaining != 0 && (self.frame_open || s.bytes_read > 0
            || s.bytes_written > 0);
        self.maybe_retire();
        proof {
            law_frontier_is_monotonic(old(self).in_pos as int, self.in_pos as int);
        }
        if s.bytes_written == 0 && self.frame_open && self.in_pos == len {
            Err(Truncated)
        } else {
            Ok(s.bytes_written)
        }
    }
}

/// Pages are only given up at page boundaries and at least [`RETIRE_WINDOW`] behind
/// what has been consumed, and what is kept of the consumed input stays within one
/// page of that window.
pub proof fn law_window_is_kept(c: Cursor, len: int)
    requires
        c.wf(len),
    ensures
        c.retire_pos % PAGE == 0,
        c.retire_pos == 0 || c.retire_pos + RETIRE_WINDOW <= c.in_pos,
        c.file_backed ==> c.in_pos - c.retire_pos < RETIRE_WINDOW + PAGE,
        !c.file_backed ==> c.retire_pos == 0,
{
    let behind = c.in_pos - RETIRE_WINDOW;
    assert(behind >= 0 ==> behind / 4096 * 4096 <= behind < behind / 4096 * 4096 + 4096);
    assert((behind / 4096 * 4096) % 4096 == 0);
}

/// The frontier never moves back.
pub proof fn law_frontier_is_monotonic(a: int, b: int)
    requires
        0 <= a <= b,
    ensures
        0 <= frontier(a) <= frontier(b) <= b,
{
}

/// A step gives up only input that was consumed, and never takes a page back.
pub proof fn law_step_retires_consumed_input(c: Cursor, len: int, s: Status)
    requires
        c.wf(len),
        len <= usize::MAX,
        c.in_pos + s.bytes_read <= len,
    ensures
        c.moved(s).retired().wf(len),
        c.retire_pos <= c.moved(s).retired().retire_pos <= c.moved(s).retired().in_pos,
{
    law_frontier_is_monotonic(c.in_pos as int, c.in_pos + s.bytes_read);
}

/// The ranges that are handed out tile the pages that are given up: if the ranges
/// `before` reach up to where pages have been named, then with the next one, if there
/// is one, they reach up to where pages are given up.
pub proof fn law_retirements_tile(before: Seq<Retirement>, c: Cursor, len: int)
    requires
        c.wf(len),
        tiles(before, c.handed_pos as int),
    ensures
        c.handed_out().wf(len),
        c.handed_out().handed_pos == c.handed_out().retire_pos == c.retire_pos,
        match retirement_between(c.handed_pos, c.retire_pos) {
            Some(r) => tiles(before.push(r), c.retire_pos as int),
            None => tiles(before, c.retire_pos as int),
        },
{
    law_window_is_kept(c, len);
    if let Some(r) = retirement_between(c.handed_pos, c.retire_pos) {
        assert(before.push(r).drop_last() =~= before);
        assert((c.retire_pos - c.handed_pos) % 4096 == 0);
    }
}

/// The frontier is the last page boundary, of pages of 4096 bytes, that has 4 MiB of
/// consumed input or more behind it, or zero.
pub proof fn law_frontier_is_the_last_boundary(in_pos: int)
    requires
        0 <= in_pos,
    ensures
        frontier(in_pos) % 4096 == 0,
        in_pos < 4194304 ==> frontier(in_pos) == 0,
        in_pos >= 4194304 ==> 0 <= frontier(in_pos) <= in_pos - 4194304 < frontier(in_pos) + 4096,
{
}

/// A range reaches from the one position to the other, and there is one just if the other
/// lies ahead.
pub proof fn law_ranges_reach(from: usize, to: usize)
    ensures
        retirement_between(from, to) is Some <==> from < to,
        retirement_between(from, to) matches Some(r) ==> r.offset == from && r.offset + r.len
            == to,
{
}

/// Ranges that tile do not overlap, leave no gap and are made of whole pages: each one
/// begins where those before it end, the first at zero.
pub proof fn law_tiles_are_adjacent(rs: Seq<Retirement>, end: int, k: int)
    requires
        tiles(rs, end),
        0 <= k < rs.len(),
    ensures
        rs[k].len > 0,
        rs[k].len % 4096 == 0,
        k == 0 ==> rs[k].offset == 0,
        k > 0 ==> rs[k].offset == rs[k - 1].offset + rs[k - 1].len,
        k == rs.len() - 1 ==> rs[k].offset + rs[k].len == end,
    decreases rs.len(),
{
    if k < rs.len() - 1 {
        law_tiles_are_adjacent(rs.drop_last(), rs.last().offset as int, k);
    } else if k > 0 {
        law_tiles_are_adjacent(rs.drop_last(), rs.last().offset as int, k - 1);
    } else {
        reveal_with_fuel(tiles, 2);
    }
}

/// What a step does to a cursor: it moves on by the bytes that were read; a frame is open
/// behind it just if the step did not end one, and one was open or something was read or
/// written; and the input is cut short just if it is used up inside a frame and nothing was
/// written. Pages are given up as far as the frontier, of a file mapping only, and named
/// when they are handed out.
pub proof fn law_step_moves_the_cursor(c: Cursor, len: int, s: Status)
    requires
        c.wf(len),
        len <= usize::MAX,
        c.in_pos + s.bytes_read <= len,
    ensures
        ({
            let after = c.moved(s).retired();
            let open = s.remaining != 0 && (c.frame_open || s.bytes_read > 0 || s.bytes_written
                > 0);
            &&& after.in_pos == c.in_pos + s.bytes_read
            &&& after.frame_open == open
            &&& after.file_backed == c.file_backed
            &&& after.handed_pos == c.handed_pos
            &&& after.retire_pos == (if c.file_backed {
                frontier(c.in_pos + s.bytes_read)
            } else {
                0
            })
            &&& c.cut_short(len, s) <==> open && s.bytes_written == 0 && after.in_pos == len
            &&& after.handed_out() == (Cursor { handed_pos: after.retire_pos, ..after })
            &&& forall|h: usize| #[trigger]
                after.with_handed(h) == (Cursor { handed_pos: h, ..after })
        }),
{
    law_step_retires_consumed_input(c, len, s);
}

/// What giving up and naming pages does to any cursor, whatever its state: the one only
/// moves the position up to which pages are given up, and never back; the other only the
/// position up to which they are named.
pub proof fn law_pages_only_move_forward(c: Cursor)
    ensures
        c.retired() == (Cursor { retire_pos: c.retired().retire_pos, ..c }),
        c.retired().retire_pos == c.retire_pos || (c.file_backed && c.retired().retire_pos
            == frontier(c.in_pos as int)),
        c.retired().retire_pos >= c.retire_pos,
        c.file_backed ==> c.retired().retire_pos >= frontier(c.in_pos as int),
        c.handed_out() == (Cursor { handed_pos: c.handed_out().handed_pos, ..c }),
        c.handed_out().handed_pos == c.handed_pos || c.handed_out().handed_pos == c.retire_pos,
        c.handed_out().handed_pos >= c.handed_pos,
        c.handed_out().handed_pos >= c.retire_pos,
{
    law_frontier_is_monotonic(0, c.in_pos as int);
}

/// What a step does to any cursor, whatever its state.
pub proof fn law_step_only_moves_forward(c: Cursor, len: int, s: Status)
    requires
        c.in_pos + s.bytes_read <= len <= usize::MAX,
    ensures
        c.moved(s) == (Cursor {
            in_pos: (c.in_pos + s.bytes_read) as usize,
            frame_open: s.remaining != 0 && (c.frame_open || s.bytes_read != 0 || s.bytes_written
                != 0),
            ..c
        }),
        c.cut_short(len, s) <==> {
            &&& s.remaining != 0
            &&& s.bytes_written == 0
            &&& c.frame_open || s.bytes_read != 0
            &&& c.in_pos + s.bytes_read == len
        },
{
}

} // verus!
