//! Placing compressed input on huge pages: how much room it takes, and in which
//! order the kernel is asked for it.
use vstd::prelude::*;

verus! {

/// The size of a huge page: 2 MiB.
pub const HUGEPAGE: usize = 2097152;

/// `MAP_HUGE_2MB`: the binary logarithm of the page size, 21, shifted by
/// `MAP_HUGE_SHIFT`, 26.
pub const MAP_HUGE_2MB: i32 = 1409286144;

/// `MFD_HUGETLB | MFD_HUGE_2MB`.
pub const MEMFD_FLAGS: u64 = 1409286148;

/// How many pages of `size` bytes `len` bytes take up.
pub open spec fn pages(len: int, size: int) -> int {
    if len % size == 0 {
        len / size
    } else {
        len / size + 1
    }
}

/// How many huge pages have to be reserved for `compressed_len` bytes of input.
pub fn needed_hugepages(compressed_len: u64) -> (r: u64)
    ensures
        r == pages(compressed_len as int, HUGEPAGE as int),
{
    let size: u64 = HUGEPAGE as u64;
    if compressed_len % size == 0 {
        compressed_len / size
    } else {
        compressed_len / size + 1
    }
}

/// The size of the smallest region of whole huge pages that holds `len` bytes.
pub fn hugepage_capacity(len: usize) -> (r: usize)
    requires
        len + HUGEPAGE - 1 <= usize::MAX,
    ensures
        r == pages(len as int, HUGEPAGE as int) * HUGEPAGE,
{
    let end: usize = len + (HUGEPAGE - 1);
    assert(end & !2097151usize == end / 2097152 * 2097152) by (bit_vector);
    end & !(HUGEPAGE - 1)
}

/// What to do next to get input onto huge pages.
#[derive(Debug, Clone, Copy, PartialEq, Eq, Structural)]
pub enum Action {
    /// Create an anonymous file on huge pages. The answer is its descriptor, or
    /// negative.
    CreateMemfd { flags: u64 },
    /// Give the file its size. The answer is zero on success.
    Resize { fd: i64, size: usize },
    /// Map anonymous memory, readable and writable, with this flag besides
    /// those of private huge pages. The answer is zero on success.
    MapAnonymous { capacity: usize, page_flag: i32 },
    /// Map the file, readable and writable and shared. The answer is zero on
    /// success.
    MapFile { fd: i64, capacity: usize },
    /// Close the file. Any answer will do.
    Close { fd: i64 },
    /// Put the compressed input at the front of the region. The answer is zero on
    /// success.
    Fill { len: usize },
    /// Unmap the region. Any answer will do.
    Unmap { capacity: usize },
    /// Give up on huge pages, and map the file instead.
    FallBack,
    /// Report why the input could not be read.
    Fail,
    /// Decompress the first `len` bytes of the region of `capacity` bytes.
    Decode { len: usize, capacity: usize },
}

/// What has been done so far.
#[derive(Debug, Clone, Copy, PartialEq, Eq, Structural)]
pub enum Stage {
    /// Nothing; a file on huge pages comes first.
    Create,
    /// The file is there.
    Resize { fd: i64 },
    /// The file, if there is one, has its size.
    MapRegion { file: Option<i64> },
    /// The file could not be resized.
    CloseUnsized { fd: i64 },
    /// The file has been mapped, or could not be.
    CloseMapped { fd: i64, mapped: bool },
    /// The region is there.
    Fill,
    /// The region could not be filled.
    Unmap,
    /// There are no huge pages to be had.
    FallBack,
    /// The input cannot be read.
    Fail,
    /// The region holds the input.
    Ready,
}

/// The opening of `len` bytes of compressed input on huge pages.
///
/// The caller performs [`action`](Self::action), hands back what came of it with
/// [`answer`](Self::answer), and goes on until the opening has ended.
#[derive(Debug, Clone, Copy, PartialEq, Eq, Structural)]
pub struct HugepageOpen {
    /// The length of the input.
    pub len: usize,
    /// The size of the region that is to hold it.
    pub capacity: usize,
    /// How far the opening has come.
    pub stage: Stage,
}

impl HugepageOpen {
    /// The region has the size of the huge pages that the input takes up.
    pub open spec fn wf(self) -> bool {
        self.capacity == pages(self.len as int, HUGEPAGE as int) * HUGEPAGE
    }

    /// Whether there is nothing left to ask of the kernel.
    pub open spec fn has_ended(self) -> bool {
        self.stage is FallBack || self.stage is Fail || self.stage is Ready
    }

    /// The most answers that can still come.
    pub open spec fn steps_left(self) -> nat {
        match self.stage {
            Stage::Create => 6,
            Stage::Resize { .. } => 5,
            Stage::MapRegion { .. } => 4,
            Stage::CloseUnsized { .. } => 1,
            Stage::CloseMapped { .. } => 3,
            Stage::Fill => 2,
            Stage::Unmap => 1,
            _ => 0,
        }
    }

    /// Whether the caller owns an open descriptor at this point.
    pub open spec fn holds_fd(self) -> bool {
        match self.stage {
            Stage::Resize { .. } | Stage::CloseUnsized { .. } | Stage::CloseMapped { .. } => true,
            Stage::MapRegion { file } => file is Some,
            _ => false,
        }
    }

    /// Whether the caller owns a mapped region at this point.
    pub open spec fn holds_region(self) -> bool {
        match self.stage {
            Stage::CloseMapped { mapped, .. } => mapped,
            Stage::Fill | Stage::Unmap | Stage::Ready => true,
            _ => false,
        }
    }

    /// What is due at a stage.
    pub open spec fn due(self) -> Action {
        match self.stage {
            Stage::Create => Action::CreateMemfd { flags: MEMFD_FLAGS },
            Stage::Resize { fd } => Action::Resize { fd, size: self.capacity },
            Stage::MapRegion { file: None } => Action::MapAnonymous {
                capacity: self.capacity,
                page_flag: MAP_HUGE_2MB,
            },
            Stage::MapRegion { file: Some(fd) } => Action::MapFile { fd, capacity: self.capacity },
            Stage::CloseUnsized { fd } => Action::Close { fd },
            Stage::CloseMapped { fd, .. } => Action::Close { fd },
            Stage::Fill => Action::Fill { len: self.len },
            Stage::Unmap => Action::Unmap { capacity: self.capacity },
            Stage::FallBack => Action::FallBack,
            Stage::Fail => Action::Fail,
            Stage::Ready => Action::Decode { len: self.len, capacity: self.capacity },
        }
    }

    /// The stage that an answer leads to.
    pub open spec fn stage_after(self, code: i64) -> Stage {
        match self.stage {
            Stage::Create => if code < 0 {
                Stage::FallBack
            } else {
                Stage::Resize { fd: code }
            },
            Stage::Resize { fd } => if code != 0 {
                Stage::CloseUnsized { fd }
            } else {
                Stage::MapRegion { file: Some(fd) }
            },
            Stage::MapRegion { file: Some(fd) } => Stage::CloseMapped { fd, mapped: code == 0 },
            Stage::MapRegion { file: None } => if code == 0 {
                Stage::Fill
            } else {
                Stage::FallBack
            },
            Stage::CloseUnsized { .. } => Stage::FallBack,
            Stage::CloseMapped { mapped, .. } => if mapped {
                Stage::Fill
            } else {
                Stage::FallBack
            },
            Stage::Fill => if code == 0 {
                Stage::Ready
            } else {
                Stage::Unmap
            },
            Stage::Unmap => Stage::Fail,
            ended => ended,
        }
    }

    /// The opening after an answer.
    pub open spec fn after(self, code: i64) -> Self {
        HugepageOpen { stage: self.stage_after(code), ..self }
    }

    /// The opening after a sequence of answers.
    pub open spec fn after_all(self, codes: Seq<i64>) -> Self
        decreases codes.len(),
    {
        if codes.len() == 0 {
            self
        } else {
            self.after_all(codes.drop_last()).after(codes.last())
        }
    }

    /// Starts to open input on anonymous huge pages, into which it is copied.
    pub fn anonymous(len: usize) -> (r: Self)
        requires
            len + HUGEPAGE - 1 <= usize::MAX,
        ensures
            r.wf(),
            r.len == len,
            r.stage == (Stage::MapRegion { file: None }),
    {
        HugepageOpen { len, capacity: hugepage_capacity(len), stage: Stage::MapRegion { file: None } }
    }

    /// Starts to open input on huge pages that belong to an anonymous file, into
    /// which it is read directly.
    pub fn memfd(len: usize) -> (r: Self)
        requires
            len + HUGEPAGE - 1 <= usize::MAX,
        ensures
            r.wf(),
            r.len == len,
            r.stage is Create,
    {
        HugepageOpen { len, capacity: hugepage_capacity(len), stage: Stage::Create }
    }

    /// What to do next.
    pub fn action(&self) -> (r: Action)
        ensures
            r == self.due(),
    {
        match self.stage {
            Stage::Create => Action::CreateMemfd { flags: MEMFD_FLAGS },
            Stage::Resize { fd } => Action::Resize { fd, size: self.capacity },
            Stage::MapRegion { file } => match file {
                None => Action::MapAnonymous { capacity: self.capacity, page_flag: MAP_HUGE_2MB },
                Some(fd) => Action::MapFile { fd, capacity: self.capacity },
            },
            Stage::CloseUnsized { fd } => Action::Close { fd },
            Stage::CloseMapped { fd, .. } => Action::Close { fd },
            Stage::Fill => Action::Fill { len: self.len },
            Stage::Unmap => Action::Unmap { capacity: self.capacity },
            Stage::FallBack => Action::FallBack,
            Stage::Fail => Action::Fail,
            Stage::Ready => Action::Decode { len: self.len, capacity: self.capacity },
        }
    }

    /// Takes in what came of the action that was due.
    pub fn answer(&mut self, code: i64)
        ensures
            *final(self) == old(self).after(code),
    {
        self.stage = match self.stage {
            Stage::Create => if code < 0 {
                Stage::FallBack
            } else {
                Stage::Resize { fd: code }
            },
            Stage::Resize { fd } => if code != 0 {
                Stage::CloseUnsized { fd }
            } else {
                Stage::MapRegion { file: Some(fd) }
            },
            Stage::MapRegion { file } => match file {
                Some(fd) => Stage::CloseMapped { fd, mapped: code == 0 },
                None => if code == 0 {
                    Stage::Fill
                } else {
                    Stage::FallBack
                },
            },
            Stage::CloseUnsized { .. } => Stage::FallBack,
            Stage::CloseMapped { mapped, .. } => if mapped {
                Stage::Fill
            } else {
                Stage::FallBack
            },
            Stage::Fill => if code == 0 {
                Stage::Ready
            } else {
                Stage::Unmap
            },
            Stage::Unmap => Stage::Fail,
            ended => ended,
        };
    }
}

/// The region is as small as whole huge pages allow, and it takes as many of them as
/// have to be reserved.
pub proof fn law_capacity_is_least(len: int)
    requires
        0 <= len,
    ensures
        ({
            let capacity = pages(len, HUGEPAGE as int) * HUGEPAGE;
            &&& len <= capacity < len + HUGEPAGE
            &&& capacity % HUGEPAGE as int == 0
            &&& forall|n: int| n * HUGEPAGE >= len ==> #[trigger] (n * HUGEPAGE) >= capacity
        }),
{
    assert forall|n: int| n * HUGEPAGE >= len implies #[trigger] (n * HUGEPAGE) >= pages(
        len,
        HUGEPAGE as int,
    ) * HUGEPAGE by {}
}

/// A descriptor or a region is held from the action that acquires it to the one that
/// releases it, and every action on one comes while it is held.
pub proof fn law_resources_are_tracked(o: HugepageOpen, code: i64)
    ensures
        o.after(code).holds_fd() == (match o.due() {
            Action::CreateMemfd { .. } => code >= 0,
            Action::Close { .. } => false,
            _ => o.holds_fd(),
        }),
        o.after(code).holds_region() == (match o.due() {
            Action::MapAnonymous { .. } | Action::MapFile { .. } => code == 0,
            Action::Unmap { .. } => false,
            _ => o.holds_region(),
        }),
        o.due() is Resize || o.due() is MapFile || o.due() is Close ==> o.holds_fd(),
        o.due() is Fill || o.due() is Unmap || o.due() is Decode ==> o.holds_region(),
{
}

/// However an opening ends, no descriptor is left open; and a region is left only for
/// the decoder that reads from it.
pub proof fn law_nothing_leaks(o: HugepageOpen)
    requires
        o.has_ended(),
    ensures
        !o.holds_fd(),
        o.holds_region() <==> o.stage is Ready,
{
}

/// Every answer brings an opening closer to its end.
pub proof fn law_opening_ends(o: HugepageOpen, code: i64)
    ensures
        o.has_ended() <==> o.steps_left() == 0,
        o.has_ended() ==> o.after(code) == o,
        !o.has_ended() ==> o.after(code).steps_left() < o.steps_left(),
        o.wf() ==> o.after(code).wf(),
{
}

/// Anonymous huge pages: the opening falls back just if they could not be mapped, and
/// fails just if they could not be filled.
pub proof fn law_anonymous_outcome(o: HugepageOpen, map: i64, fill: i64, unmap: i64)
    requires
        o.stage == (Stage::MapRegion { file: None }),
    ensures
        o.after_all(seq![map, fill, unmap]).stage == (if map != 0 {
            Stage::FallBack
        } else if fill != 0 {
            Stage::Fail
        } else {
            Stage::Ready
        }),
{
    reveal_with_fuel(HugepageOpen::after_all, 4);
    let codes = seq![map, fill, unmap];
    assert(codes.drop_last() =~= seq![map, fill]);
    assert(seq![map, fill].drop_last() =~= seq![map]);
    assert(seq![map].drop_last() =~= Seq::<i64>::empty());
}

/// Huge pages of a file: the opening falls back just if the file could not be created,
/// resized or mapped, and fails just if it could not be filled.
pub proof fn law_memfd_outcome(
    o: HugepageOpen,
    create: i64,
    resize: i64,
    map: i64,
    close: i64,
    fill: i64,
    unmap: i64,
)
    requires
        o.stage is Create,
    ensures
        o.after_all(seq![create, resize, map, close, fill, unmap]).stage == (if create < 0
            || resize != 0 || map != 0 {
            Stage::FallBack
        } else if fill != 0 {
            Stage::Fail
        } else {
            Stage::Ready
        }),
{
    reveal_with_fuel(HugepageOpen::after_all, 7);
    assert(seq![create, resize, map, close, fill, unmap].drop_last() =~= seq![
        create,
        resize,
        map,
        close,
        fill,
    ]);
    assert(seq![create, resize, map, close, fill].drop_last() =~= seq![create, resize, map, close]);
    assert(seq![create, resize, map, close].drop_last() =~= seq![create, resize, map]);
    assert(seq![create, resize, map].drop_last() =~= seq![create, resize]);
    assert(seq![create, resize].drop_last() =~= seq![create]);
    assert(seq![create].drop_last() =~= Seq::<i64>::empty());
}

/// Pages are counted so that they hold everything, and that one less would not.
pub proof fn law_pages_are_just_enough(len: int, size: int)
    requires
        0 <= len,
        0 < size,
    ensures
        pages(len, size) >= 0,
        pages(len, size) * size >= len,
        len > 0 ==> (pages(len, size) - 1) * size < len,
        len == 0 ==> pages(len, size) == 0,
{
    vstd::arithmetic::div_mod::lemma_fundamental_div_mod(len, size);
    vstd::arithmetic::div_mod::lemma_div_pos_is_pos(len, size);
    let q = len / size;
    assert(size * q == q * size) by (nonlinear_arith);
    assert((q + 1) * size == q * size + size) by (nonlinear_arith);
    assert((q - 1) * size == q * size - size) by (nonlinear_arith);
    if len == 0 {
        vstd::arithmetic::div_mod::lemma_div_basics(size);
    }
}

/// The region of an opening has room for its input, whatever the length, in whole pages
/// of 2 MiB, and none of them is left empty.
pub proof fn law_region_fits(o: HugepageOpen)
    requires
        o.wf(),
    ensures
        o.len <= o.capacity < o.len + 2097152,
        o.capacity % 2097152 == 0,
{
}

/// The actions of an opening carry the numbers of the opening: what is decoded is exactly
/// what was filled in, which is all of the input, and what is resized, mapped or unmapped
/// is the whole region. No answer changes these numbers.
pub proof fn law_actions_carry_the_opening(o: HugepageOpen, code: i64)
    ensures
        o.due() matches Action::Decode { len, capacity } ==> len == o.len && capacity
            == o.capacity,
        o.due() matches Action::Fill { len } ==> len == o.len,
        o.due() matches Action::Resize { fd, size } ==> size == o.capacity,
        o.due() matches Action::MapAnonymous { capacity, page_flag } ==> capacity == o.capacity
            && page_flag == 1409286144,
        o.due() matches Action::MapFile { fd, capacity } ==> capacity == o.capacity,
        o.due() matches Action::Unmap { capacity } ==> capacity == o.capacity,
        o.due() matches Action::CreateMemfd { flags } ==> flags == 1409286148,
        o.after(code).len == o.len,
        o.after(code).capacity == o.capacity,
{
}

/// How an opening on anonymous huge pages goes, whatever comes of each action: the region
/// is mapped, or the opening falls back; it is filled with all of the input, and decoded,
/// or it is unmapped, and the opening fails.
pub proof fn law_anonymous_script(o: HugepageOpen, map: i64, fill: i64, unmap: i64)
    requires
        o.stage == (Stage::MapRegion { file: None }),
    ensures
        o.due() == (Action::MapAnonymous { capacity: o.capacity, page_flag: 1409286144 }),
        map != 0 ==> o.after(map).due() == Action::FallBack,
        map == 0 ==> o.after(map).due() == (Action::Fill { len: o.len }),
        map == 0 && fill == 0 ==> o.after(map).after(fill).due() == (Action::Decode {
            len: o.len,
            capacity: o.capacity,
        }),
        map == 0 && fill != 0 ==> {
            &&& o.after(map).after(fill).due() == (Action::Unmap { capacity: o.capacity })
            &&& o.after(map).after(fill).after(unmap).due() == Action::Fail
        },
{
}

/// How an opening on huge pages of a file goes, whatever comes of each action: the file is
/// created, or the opening falls back; the file with the descriptor that was handed out is
/// resized, mapped and closed, and closed too where that fails, after which the opening
/// falls back; the region is filled with all of the input, and decoded, or it is unmapped,
/// and the opening fails.
pub proof fn law_memfd_script(
    o: HugepageOpen,
    create: i64,
    resize: i64,
    map: i64,
    close: i64,
    fill: i64,
    unmap: i64,
)
    requires
        o.stage is Create,
    ensures
        ({
            let created = o.after(create);
            let resized = created.after(resize);
            let mapped = resized.after(map);
            let closed = mapped.after(close);
            let filled = closed.after(fill);
            &&& o.due() == (Action::CreateMemfd { flags: 1409286148 })
            &&& create < 0 ==> created.due() == Action::FallBack
            &&& create >= 0 ==> {
                &&& created.due() == (Action::Resize { fd: create, size: o.capacity })
                &&& resize != 0 ==> {
                    &&& resized.due() == (Action::Close { fd: create })
                    &&& resized.after(close).due() == Action::FallBack
                }
                &&& resize == 0 ==> {
                    &&& resized.due() == (Action::MapFile { fd: create, capacity: o.capacity })
                    &&& mapped.due() == (Action::Close { fd: create })
                    &&& map != 0 ==> closed.due() == Action::FallBack
                    &&& map == 0 ==> {
                        &&& closed.due() == (Action::Fill { len: o.len })
                        &&& fill == 0 ==> filled.due() == (Action::Decode {
                            len: o.len,
                            capacity: o.capacity,
                        })
                        &&& fill != 0 ==> {
                            &&& filled.due() == (Action::Unmap { capacity: o.capacity })
                            &&& filled.after(unmap).due() == Action::Fail
                        }
                    }
                }
            }
        }),
{
}

/// An opening that falls back, fails or is ready stays so, and it is then that there is
/// nothing left to ask of the kernel.
pub proof fn law_ends_are_final(o: HugepageOpen, code: i64)
    ensures
        o.has_ended() <==> o.due() is FallBack || o.due() is Fail || o.due() is Decode,
        o.due() is FallBack || o.due() is Fail || o.due() is Decode ==> o.after(code).due()
            == o.due(),
{
}

} // verus!
