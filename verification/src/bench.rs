//! What the benchmark measures and how it reports it.
use vstd::prelude::*;

use crate::hugepage::needed_hugepages;
use crate::text::{
    format_bytes, push_decimal, push_mebibytes, push_padded, push_signed, with_commas,
};

verus! {

/// How the compressed input is read.
#[derive(Debug, Clone, Copy, PartialEq, Eq, Structural)]
pub enum Mode {
    /// Copied into anonymous huge pages.
    HugepageAnon,
    /// Read into huge pages that belong to a file.
    HugepageMemfd,
    /// Through a buffer.
    Bufreader,
}

impl Mode {
    /// The mode as it is written on the command line.
    pub open spec fn label(self) -> Seq<char> {
        match self {
            Mode::HugepageAnon => "hugepage-anon"@,
            Mode::HugepageMemfd => "hugepage-memfd"@,
            Mode::Bufreader => "bufreader"@,
        }
    }

    /// The mode as it is written on the command line.
    pub fn name(&self) -> (r: &'static str)
        ensures
            r@ == self.label(),
    {
        match self {
            Mode::HugepageAnon => "hugepage-anon",
            Mode::HugepageMemfd => "hugepage-memfd",
            Mode::Bufreader => "bufreader",
        }
    }

    /// Whether this mode asks for more huge pages than the `free` ones, for a file of
    /// `file_size` bytes, so that it is going to fall back.
    pub fn lacks_hugepages(&self, free: u64, file_size: u64) -> (r: bool)
        ensures
            r <==> self !is Bufreader && free < crate::hugepage::pages(
                file_size as int,
                crate::hugepage::HUGEPAGE as int,
            ),
    {
        match self {
            Mode::HugepageAnon | Mode::HugepageMemfd => free < needed_hugepages(file_size),
            Mode::Bufreader => false,
        }
    }
}

/// What one run took.
#[derive(Debug, Clone, Copy, PartialEq, Eq, Structural)]
pub struct RunResult {
    /// Wall-clock time in nanoseconds.
    pub wall_ns: u64,
    /// Bytes that came out.
    pub decompressed_bytes: u64,
    /// Growth of the resident set in KiB.
    pub drss_kib: i64,
    /// Minor page faults.
    pub minfaults: u64,
}

/// The signed number with the 64 binary digits of `n`.
pub open spec fn as_signed(n: u64) -> int {
    if n <= i64::MAX {
        n as int
    } else {
        n - 0x1_0000_0000_0000_0000
    }
}

/// Takes the readings before and after a run together.
pub fn run_result(
    wall_ns: u64,
    decompressed_bytes: u64,
    rss_before: u64,
    rss_after: u64,
    minflt_before: u64,
    minflt_after: u64,
) -> (r: RunResult)
    requires
        i64::MIN <= as_signed(rss_after) - as_signed(rss_before) <= i64::MAX,
        minflt_before <= minflt_after,
    ensures
        r.wall_ns == wall_ns,
        r.decompressed_bytes == decompressed_bytes,
        r.drss_kib == as_signed(rss_after) - as_signed(rss_before),
        r.minfaults == minflt_after - minflt_before,
{
    assert(forall|n: u64| #![trigger n as i64]
        n as i64 == (if n <= 0x7fff_ffff_ffff_ffff {
            n as int
        } else {
            n - 0x1_0000_0000_0000_0000
        })) by (bit_vector);
    RunResult {
        wall_ns,
        decompressed_bytes,
        drss_kib: rss_after as i64 - rss_before as i64,
        minfaults: minflt_after - minflt_before,
    }
}

/// `s` in ascending order.
pub open spec fn sorted(s: Seq<u64>) -> Seq<u64> {
    s.sort_by(|a: u64, b: u64| a <= b)
}

/// Whether `s` is in ascending order.
pub open spec fn ascending(s: Seq<u64>) -> bool {
    forall|i: int, j: int| 0 <= i <= j < s.len() ==> s[i] <= s[j]
}

/// Calls `sort_unstable` of std on the elements of `v`.
///
/// Trusted: the same elements are left, as often as before, in ascending order.
#[verifier::external_body]
fn sort_unstable(v: &mut Vec<u64>)
    ensures
        ascending(final(v)@),
        final(v)@.to_multiset() == old(v)@.to_multiset(),
{
    v.sort_unstable();
}

proof fn lemma_sorted_ascends(s: Seq<u64>)
    ensures
        ascending(sorted(s)),
        sorted(s).to_multiset() == s.to_multiset(),
{
    let leq = |a: u64, b: u64| a <= b;
    assert(vstd::relations::total_ordering(leq));
    s.lemma_sort_by_ensures(leq);
    let t = sorted(s);
    assert forall|i: int, j: int| 0 <= i <= j < t.len() implies t[i] <= t[j] by {
        if i < j {
            assert(leq(t[i], t[j]));
        }
    }
}

/// A sequence has one ascending arrangement only.
pub proof fn law_sorted_is_unique(s: Seq<u64>, t: Seq<u64>)
    requires
        ascending(t),
        t.to_multiset() == s.to_multiset(),
    ensures
        t == sorted(s),
        t.len() == s.len(),
{
    let leq = |a: u64, b: u64| a <= b;
    assert(vstd::relations::total_ordering(leq));
    s.lemma_sort_by_ensures(leq);
    assert(vstd::relations::sorted_by(t, leq));
    vstd::seq_lib::lemma_sorted_unique(t, sorted(s), leq);
    s.to_multiset_ensures();
    t.to_multiset_ensures();
}

/// The middle one of `v`; the upper one of two.
pub fn median_u64(v: Vec<u64>) -> (r: u64)
    requires
        v@.len() > 0,
    ensures
        r == sorted(v@)[v@.len() as int / 2],
{
    let mut v = v;
    let ghost given = v@;
    sort_unstable(&mut v);
    proof {
        law_sorted_is_unique(given, v@);
    }
    v[v.len() / 2]
}

/// The order in which values come does not change their median.
pub proof fn law_median_ignores_order(s: Seq<u64>, t: Seq<u64>)
    requires
        s.to_multiset() == t.to_multiset(),
        s.len() > 0,
    ensures
        sorted(s)[s.len() as int / 2] == sorted(t)[t.len() as int / 2],
{
    lemma_sorted_ascends(s);
    law_sorted_is_unique(t, sorted(s));
    s.to_multiset_ensures();
    t.to_multiset_ensures();
}

/// The median is one of the values; in ascending order, those before it are no larger
/// and those behind it no smaller.
pub proof fn law_median_is_in_the_middle(s: Seq<u64>)
    requires
        s.len() > 0,
    ensures
        ({
            let m = sorted(s)[s.len() as int / 2];
            &&& sorted(s).to_multiset() == s.to_multiset()
            &&& s.contains(m)
            &&& forall|i: int| 0 <= i <= s.len() / 2 ==> #[trigger] sorted(s)[i] <= m
            &&& forall|i: int| s.len() / 2 <= i < s.len() ==> m <= #[trigger] sorted(s)[i]
        }),
{
    lemma_sorted_ascends(s);
    law_sorted_is_unique(s, sorted(s));
    let m = sorted(s)[s.len() as int / 2];
    s.to_multiset_ensures();
    sorted(s).to_multiset_ensures();
    assert(sorted(s).contains(m));
    assert(sorted(s).to_multiset().count(m) > 0);
}

/// Six cells side by side, as one line of a table.
pub open spec fn table_text(
    run: Seq<char>,
    wall: Seq<char>,
    decompressed: Seq<char>,
    throughput: Seq<char>,
    drss: Seq<char>,
    faults: Seq<char>,
) -> Seq<char> {
    "| "@ + crate::text::padded(run, 3) + " | "@ + crate::text::padded(wall, 9) + " | "@ + crate::text::padded(decompressed, 12) + " | "@
        + crate::text::padded(throughput, 17) + " | "@ + crate::text::padded(drss, 10) + " | "@ + crate::text::padded(faults, 12) + " |"@
}

/// Nanoseconds as whole milliseconds.
pub open spec fn millis(ns: u64) -> Seq<char> {
    crate::text::decimal((ns / 1000000) as nat) + " ms"@
}

/// One line of a table.
pub fn table_line(
    run: &str,
    wall: &str,
    decompressed: &str,
    throughput: &str,
    drss: &str,
    faults: &str,
) -> (r: String)
    ensures
        r@ == table_text(run@, wall@, decompressed@, throughput@, drss@, faults@),
{
    let mut out: String = String::new();
    out.append("| ");
    push_padded(&mut out, run, 3);
    out.append(" | ");
    push_padded(&mut out, wall, 9);
    out.append(" | ");
    push_padded(&mut out, decompressed, 12);
    out.append(" | ");
    push_padded(&mut out, throughput, 17);
    out.append(" | ");
    push_padded(&mut out, drss, 10);
    out.append(" | ");
    push_padded(&mut out, faults, 12);
    out.append(" |");
    assert(out@ =~= table_text(run@, wall@, decompressed@, throughput@, drss@, faults@));
    out
}

fn decimal_string(n: u64) -> (r: String)
    ensures
        r@ == crate::text::decimal(n as nat),
{
    let mut out: String = String::new();
    push_decimal(&mut out, n as u128);
    assert(out@ =~= crate::text::decimal(n as nat));
    out
}

/// The line of the table for one run, with the throughput in whole MB/s.
pub fn table_row(run: u32, result: &RunResult, throughput_mbps: u64) -> (r: String)
    ensures
        r@ == table_text(
            crate::text::decimal(run as nat),
            millis(result.wall_ns),
            crate::text::byte_size(result.decompressed_bytes as nat),
            crate::text::grouped(throughput_mbps as nat),
            crate::text::signed_decimal(result.drss_kib as int),
            crate::text::decimal(result.minfaults as nat),
        ),
{
    let mut wall: String = decimal_string(result.wall_ns / 1000000);
    wall.append(" ms");
    let mut drss: String = String::new();
    push_signed(&mut drss, result.drss_kib);
    assert(drss@ =~= crate::text::signed_decimal(result.drss_kib as int));
    table_line(
        decimal_string(run as u64).as_str(),
        wall.as_str(),
        format_bytes(result.decompressed_bytes).as_str(),
        with_commas(throughput_mbps).as_str(),
        drss.as_str(),
        decimal_string(result.minfaults).as_str(),
    )
}

/// The line for one run in a list with comma-separated values. The throughput comes
/// as text.
pub fn csv_row(mode: &Mode, run: u32, result: &RunResult, throughput_mbps: &str) -> (r: String)
    ensures
        r@ == mode.label() + ","@ + crate::text::decimal(run as nat) + ","@ + crate::text::decimal(result.wall_ns as nat)
            + ","@ + crate::text::decimal(result.decompressed_bytes as nat) + ","@ + throughput_mbps@ + ","@
            + crate::text::signed_decimal(result.drss_kib as int) + ","@ + crate::text::decimal(result.minfaults as nat),
{
    let mut out: String = String::new();
    out.append(mode.name());
    out.append(",");
    push_decimal(&mut out, run as u128);
    out.append(",");
    push_decimal(&mut out, result.wall_ns as u128);
    out.append(",");
    push_decimal(&mut out, result.decompressed_bytes as u128);
    out.append(",");
    out.append(throughput_mbps);
    out.append(",");
    push_signed(&mut out, result.drss_kib);
    out.append(",");
    push_decimal(&mut out, result.minfaults as u128);
    assert(out@ =~= mode.label() + ","@ + crate::text::decimal(run as nat) + ","@ + crate::text::decimal(
        result.wall_ns as nat,
    ) + ","@ + crate::text::decimal(result.decompressed_bytes as nat) + ","@ + throughput_mbps@ + ","@
        + crate::text::signed_decimal(result.drss_kib as int) + ","@ + crate::text::decimal(result.minfaults as nat));
    out
}

/// The line that says how large the compressed file is.
pub fn size_line(file_size: u64) -> (r: String)
    ensures
        r@ == "size: "@ + crate::text::grouped(file_size as nat) + " bytes ("@ + crate::text::one_decimal(
            file_size as nat,
            0x10_0000,
        ) + " MiB compressed)"@,
{
    let mut out: String = String::new();
    out.append("size: ");
    out.append(with_commas(file_size).as_str());
    out.append(" bytes (");
    push_mebibytes(&mut out, file_size);
    out.append(" MiB compressed)");
    assert(out@ =~= "size: "@ + crate::text::grouped(file_size as nat) + " bytes ("@ + crate::text::one_decimal(
        file_size as nat,
        0x10_0000,
    ) + " MiB compressed)"@);
    out
}

/// The line that sums the runs up.
pub fn median_line(wall_ns: u64, throughput_mbps: u64) -> (r: String)
    ensures
        r@ == "median: "@ + millis(wall_ns) + " / "@ + crate::text::grouped(throughput_mbps as nat) + " MB/s"@,
{
    let mut out: String = String::new();
    out.append("median: ");
    push_decimal(&mut out, (wall_ns / 1000000) as u128);
    out.append(" ms");
    out.append(" / ");
    out.append(with_commas(throughput_mbps).as_str());
    out.append(" MB/s");
    assert(out@ =~= "median: "@ + millis(wall_ns) + " / "@ + crate::text::grouped(throughput_mbps as nat)
        + " MB/s"@);
    out
}

/// The milliseconds that are shown are the whole ones of the time, however long it is:
/// read back, they are at most the time, and one more would be over it.
pub proof fn law_millis_read_back(ns: u64)
    ensures
        exists|m: nat|
            m * 1000000 <= ns < (m + 1) * 1000000 && millis(ns) == #[trigger] crate::text::decimal(
                m,
            ) + " ms"@,
{
    let m = (ns / 1000000) as nat;
    assert(m * 1000000 <= ns < (m + 1) * 1000000);
    assert(millis(ns) == crate::text::decimal(m) + " ms"@);
}

/// A reading is taken as the signed number with the same 64 binary digits: itself, or what
/// it falls short of 2^64.
pub proof fn law_readings_are_signed(n: u64)
    ensures
        as_signed(n) == n || as_signed(n) == n - 0x1_0000_0000_0000_0000,
        -0x8000_0000_0000_0000 <= as_signed(n) < 0x8000_0000_0000_0000,
{
}

/// Where the cells of a table line stand: between bars, each in a column as wide as it
/// takes, or as the heading does if that is wider, and each as it was given.
pub proof fn law_cells_stand_in_columns(
    run: Seq<char>,
    wall: Seq<char>,
    decompressed: Seq<char>,
    throughput: Seq<char>,
    drss: Seq<char>,
    faults: Seq<char>,
)
    ensures
        ({
            let t = table_text(run, wall, decompressed, throughput, drss, faults);
            let a: int = if run.len() < 3 { 3 } else { run.len() as int };
            let b: int = if wall.len() < 9 { 9 } else { wall.len() as int };
            let c: int = if decompressed.len() < 12 { 12 } else { decompressed.len() as int };
            let d: int = if throughput.len() < 17 { 17 } else { throughput.len() as int };
            let e: int = if drss.len() < 10 { 10 } else { drss.len() as int };
            let f: int = if faults.len() < 12 { 12 } else { faults.len() as int };
            let at_b = 2 + a + 3;
            let at_c = at_b + b + 3;
            let at_d = at_c + c + 3;
            let at_e = at_d + d + 3;
            let at_f = at_e + e + 3;
            &&& t.len() == at_f + f + 2
            &&& t.take(2) == "| "@
            &&& t.subrange(2, 2 + a) == crate::text::padded(run, 3)
            &&& t.subrange(2 + a, at_b) == " | "@
            &&& t.subrange(at_b, at_b + b) == crate::text::padded(wall, 9)
            &&& t.subrange(at_b + b, at_c) == " | "@
            &&& t.subrange(at_c, at_c + c) == crate::text::padded(decompressed, 12)
            &&& t.subrange(at_c + c, at_d) == " | "@
            &&& t.subrange(at_d, at_d + d) == crate::text::padded(throughput, 17)
            &&& t.subrange(at_d + d, at_e) == " | "@
            &&& t.subrange(at_e, at_e + e) == crate::text::padded(drss, 10)
            &&& t.subrange(at_e + e, at_f) == " | "@
            &&& t.subrange(at_f, at_f + f) == crate::text::padded(faults, 12)
            &&& t.skip(at_f + f) == " |"@
        }),
{
    reveal_strlit("| ");
    reveal_strlit(" | ");
    reveal_strlit(" |");
    crate::text::law_padding_only_adds_spaces(run, 3);
    crate::text::law_padding_only_adds_spaces(wall, 9);
    crate::text::law_padding_only_adds_spaces(decompressed, 12);
    crate::text::law_padding_only_adds_spaces(throughput, 17);
    crate::text::law_padding_only_adds_spaces(drss, 10);
    crate::text::law_padding_only_adds_spaces(faults, 12);
}

} // verus!
