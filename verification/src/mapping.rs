//! Memory-mapped input: its bytes, and the hints given to the kernel about it.
use vstd::prelude::*;

verus! {

/// `memmap2::Mmap`, a read-only memory mapping.
#[verifier::external_type_specification]
#[verifier::external_body]
pub struct ExMmap(memmap2::Mmap);

/// The bytes of a mapping. A mapped file must not be modified while it is mapped.
pub uninterp spec fn mapped(m: memmap2::Mmap) -> Seq<u8>;

/// The hints about a mapping that were put before the kernel so far, in order.
pub uninterp spec fn hints(m: memmap2::Mmap) -> Seq<Hint>;

/// How a mapping is going to be used.
#[derive(Debug, Clone, Copy, PartialEq, Eq, Structural)]
pub enum MapAdvice {
    /// Pages will be read in order.
    Sequential,
    /// Huge pages are welcome.
    HugePage,
    /// All pages should be faulted in now.
    PopulateRead,
}

/// One hint, and whether its refusal is an error.
#[derive(Debug, Clone, Copy, PartialEq, Eq, Structural)]
pub struct AdviceStep {
    /// The hint.
    pub advice: MapAdvice,
    /// Whether the mapping is unusable if the kernel refuses the hint.
    pub required: bool,
}

/// A hint that was given, and how the kernel answered it.
pub struct Hint {
    /// The hint.
    pub advice: MapAdvice,
    /// The answer.
    pub answer: Result<(), std::io::Error>,
}

/// The hints for input that is decompressed front to back, in the order in which
/// they are given. Kernels without huge pages refuse the second, and those that cannot
/// pre-fault a mapping the last one; neither does any harm.
pub open spec fn advice_plan() -> Seq<AdviceStep> {
    seq![
        AdviceStep { advice: MapAdvice::Sequential, required: true },
        AdviceStep { advice: MapAdvice::HugePage, required: false },
        AdviceStep { advice: MapAdvice::PopulateRead, required: false },
    ]
}

/// Dereferences a `memmap2::Mmap`.
///
/// Trusted: the slice holds the bytes of the mapping.
#[verifier::external_body]
pub(crate) fn map_bytes(m: &memmap2::Mmap) -> (r: &[u8])
    ensures
        r@ == mapped(*m),
{
    m
}

/// Calls `memmap2::Mmap::advise`, which is `madvise` on the whole mapping.
///
/// Trusted: the hint is put before the kernel, whose answer is returned, and the bytes
/// stay as they are. Not said: how the kernel answers.
#[verifier::external_body]
fn advise(m: &mut memmap2::Mmap, advice: MapAdvice) -> (r: Result<(), std::io::Error>)
    ensures
        hints(*final(m)) == hints(*old(m)).push((Hint { advice, answer: r })),
        mapped(*final(m)) == mapped(*old(m)),
{
    m.advise(
        match advice {
            MapAdvice::Sequential => memmap2::Advice::Sequential,
            MapAdvice::HugePage => memmap2::Advice::HugePage,
            MapAdvice::PopulateRead => memmap2::Advice::PopulateRead,
        },
    )
}

/// The hint that comes after `done` others, if any is left.
pub fn next_advice(done: usize) -> (r: Option<AdviceStep>)
    ensures
        r == (if done < advice_plan().len() {
            Some(advice_plan()[done as int])
        } else {
            None
        }),
{
    if done == 0 {
        Some(AdviceStep { advice: MapAdvice::Sequential, required: true })
    } else if done == 1 {
        Some(AdviceStep { advice: MapAdvice::HugePage, required: false })
    } else if done == 2 {
        Some(AdviceStep { advice: MapAdvice::PopulateRead, required: false })
    } else {
        None
    }
}

/// What the kernel's answer to a hint means: only the refusal of a required hint
/// is an error.
pub fn settle_advice(step: AdviceStep, answer: Result<(), std::io::Error>) -> (r: Result<
    (),
    std::io::Error,
>)
    ensures
        r == (if step.required {
            answer
        } else {
            Ok::<(), std::io::Error>(())
        }),
{
    if step.required {
        answer
    } else {
        Ok(())
    }
}

/// Whether `given` are the first hints of the plan, and none but the last can be a
/// required one that was refused.
pub open spec fn follows_plan(given: Seq<Hint>) -> bool {
    &&& given.len() <= advice_plan().len()
    &&& forall|k: int|
        0 <= k < given.len() ==> (#[trigger] given[k]).advice == advice_plan()[k].advice
    &&& forall|k: int| 0 <= k < given.len() - 1 ==> !#[trigger] spoils(given, k)
}

/// Whether hint `k` of the plan is required and was refused.
pub open spec fn spoils(given: Seq<Hint>, k: int) -> bool {
    advice_plan()[k].required && given[k].answer is Err
}

/// What giving the hints of the plan one after the other comes to, when `given` are
/// those that were given: it ends with the first required hint that is refused, with
/// the error of that hint, or else with the plan.
pub open spec fn plan_result(given: Seq<Hint>, r: Result<(), std::io::Error>) -> bool {
    let last = given.len() - 1;
    &&& follows_plan(given)
    &&& match r {
        Ok(()) => given.len() == advice_plan().len() && !spoils(given, last),
        Err(e) => given.len() > 0 && spoils(given, last) && given[last].answer == Err::<
            (),
            std::io::Error,
        >(e),
    }
}

/// Gives the kernel the hints for `m` one after the other, up to the first required
/// one that it refuses. That is when it fails; the kernel alone decides, by its answer
/// to the first hint, which is the required one.
pub fn apply_madvise(m: &mut memmap2::Mmap) -> (r: Result<(), std::io::Error>)
    ensures
        mapped(*final(m)) == mapped(*old(m)),
        hints(*old(m)).is_prefix_of(hints(*final(m))),
        plan_result(hints(*final(m)).skip(hints(*old(m)).len() as int), r),
        r is Ok <==> hints(*final(m))[hints(*old(m)).len() as int].answer is Ok,
{
    let ghost first = hints(*m);
    let ghost mut given: Seq<Hint> = Seq::empty();
    let mut done: usize = 0;
    assert(hints(*m) =~= first + given);
    loop
        invariant
            done == given.len() <= advice_plan().len(),
            first == hints(*old(m)),
            mapped(*m) == mapped(*old(m)),
            hints(*m) == first + given,
            follows_plan(given),
            given.len() > 0 ==> !spoils(given, given.len() - 1),
        decreases advice_plan().len() - done,
    {
        match next_advice(done) {
            None => {
                assert(hints(*m).skip(first.len() as int) =~= given);
                assert(hints(*m).take(first.len() as int) =~= first);
                assert(!spoils(given, 0));
                return Ok(());
            },
            Some(step) => {
                let answer = advise(m, step.advice);
                let ghost longer = given.push((Hint { advice: step.advice, answer }));
                assert(hints(*m) =~= first + longer);
                assert(follows_plan(longer)) by {
                    assert forall|k: int| 0 <= k < longer.len() - 1 implies !#[trigger] spoils(
                        longer,
                        k,
                    ) by {
                        assert(longer[k] == given[k]);
                        assert(!spoils(given, k));
                    }
                    assert forall|k: int| 0 <= k < longer.len() implies (
                    #[trigger] longer[k]).advice == advice_plan()[k].advice by {
                        if k < given.len() {
                            assert(longer[k] == given[k]);
                        }
                    }
                }
                match settle_advice(step, answer) {
                    Ok(()) => {
                        done = done + 1;
                        proof {
                            given = longer;
                        }
                    },
                    Err(e) => {
                        assert(hints(*m).skip(first.len() as int) =~= longer);
                        assert(hints(*m).take(first.len() as int) =~= first);
                        return Err(e);
                    },
                }
            },
        }
    }
}

/// Which hints are given, and what comes of them: the kernel is told first that the
/// mapping is read in order, and that refused, nothing else; then that huge pages are
/// welcome and that the mapping should be faulted in, whether it heeds that or not.
pub proof fn law_hints_are_given_in_order(given: Seq<Hint>, r: Result<(), std::io::Error>)
    ensures
        plan_result(given, r) <==> match r {
            Ok(()) => {
                &&& given.len() == 3
                &&& given[0].advice is Sequential && given[0].answer is Ok
                &&& given[1].advice is HugePage
                &&& given[2].advice is PopulateRead
            },
            Err(e) => {
                &&& given.len() == 1
                &&& given[0].advice is Sequential
                &&& given[0].answer == Err::<(), std::io::Error>(e)
            },
        },
{
    assert(!advice_plan()[1].required && !advice_plan()[2].required);
    if plan_result(given, r) {
        if given.len() > 1 {
            assert(!spoils(given, 0));
        }
    }
}

} // verus!
