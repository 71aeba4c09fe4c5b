//! The CUDA backend: a build without device support.
//!
//! Opening a device always fails here, rather than returning a handle that
//! does not work, so that no caller can believe it is running on a GPU.

use crate::error::EngineError;
use crate::float::Float32;
use crate::text::{decimal, join3, owned, push_count};
use crate::traits::{Backend, DType, Device};
use vstd::prelude::*;
use vstd::string::*;

verus! {

/// Why CUDA is unavailable, when it is.
#[derive(Debug, Clone, Copy, PartialEq, Eq, Structural)]
pub enum CudaUnavailable {
    /// Device support was not compiled in.
    FeatureDisabled,
    /// No CUDA driver was found.
    NoDriver,
    /// A driver exists but reports no usable devices.
    NoDevices,
    /// The requested device ordinal does not exist.
    NoSuchDevice { requested: usize, available: usize },
}

impl CudaUnavailable {
    /// The text shown for this reason.
    pub open spec fn text(self) -> Seq<char> {
        match self {
            CudaUnavailable::FeatureDisabled =>
                "CUDA support was not compiled in; rebuild with --features cuda"@,
            CudaUnavailable::NoDriver => "no CUDA driver found"@,
            CudaUnavailable::NoDevices => "CUDA driver found but no devices available"@,
            CudaUnavailable::NoSuchDevice { requested, available } => "CUDA device "@ + decimal(
                requested as nat,
            ) + " requested but only "@ + decimal(available as nat) + " device(s) present"@,
        }
    }

    pub fn message(self) -> (r: String)
        ensures
            r@ == self.text(),
    {
        match self {
            CudaUnavailable::FeatureDisabled => owned(
                "CUDA support was not compiled in; rebuild with --features cuda",
            ),
            CudaUnavailable::NoDriver => owned("no CUDA driver found"),
            CudaUnavailable::NoDevices => owned("CUDA driver found but no devices available"),
            CudaUnavailable::NoSuchDevice { requested, available } => {
                let mut m = owned("CUDA device ");
                push_count(&mut m, requested);
                m.append(" requested but only ");
                push_count(&mut m, available);
                m.append(" device(s) present");
                m
            },
        }
    }
}

/// Whether this build can use CUDA at all.
pub fn is_available() -> (r: bool)
    ensures
        !r,
{
    false
}

/// Number of CUDA devices visible.
pub fn device_count() -> (r: usize)
    ensures
        r == 0,
{
    0
}

/// A CUDA device, if one could be opened.
///
/// Construction is the only place availability is decided.
#[derive(Debug)]
pub struct CudaBackend {
    ordinal: usize,
    name: String,
    total_memory: u64,
}

impl CudaBackend {
    pub closed spec fn number(&self) -> usize {
        self.ordinal
    }

    pub closed spec fn title(&self) -> Seq<char> {
        self.name@
    }

    pub closed spec fn bytes(&self) -> u64 {
        self.total_memory
    }

    /// Opens a CUDA device, which fails in this build.
    pub fn new(ordinal: usize) -> (r: Result<Self, CudaUnavailable>)
        ensures
            r matches Err(why) && why == CudaUnavailable::FeatureDisabled,
    {
        if !is_available() {
            return Err(CudaUnavailable::FeatureDisabled);
        }
        let count: usize = device_count();
        if count == 0 {
            return Err(CudaUnavailable::NoDevices);
        }
        if ordinal >= count {
            return Err(CudaUnavailable::NoSuchDevice { requested: ordinal, available: count });
        }
        Err(CudaUnavailable::NoDevices)
    }

    pub fn ordinal(&self) -> (r: usize)
        ensures
            r == self.number(),
    {
        self.ordinal
    }

    pub fn device_name(&self) -> (r: &str)
        ensures
            r@ == self.title(),
    {
        self.name.as_str()
    }
}

impl Backend for CudaBackend {
    open spec fn label(&self) -> Seq<char> {
        "cuda"@
    }

    open spec fn place(&self) -> Device {
        Device::Cuda(self.number())
    }

    open spec fn memory(&self) -> Option<u64> {
        Some(self.bytes())
    }

    open spec fn reports_available(&self, bytes: Option<u64>) -> bool {
        bytes is None
    }

    open spec fn settles(&self, outcome: Result<(), EngineError>) -> bool {
        outcome matches Err(EngineError::Backend { backend, stage, reason }) && backend@ == "cuda"@
            && stage@ == "synchronize"@ && reason@ == "CUDA backend is not implemented"@
    }

    open spec fn executes(&self, dtype: DType) -> bool {
        dtype is F32 || dtype is F16 || dtype is BF16
    }

    fn name(&self) -> (r: &'static str) {
        "cuda"
    }

    fn device(&self) -> (r: Device) {
        Device::Cuda(self.ordinal)
    }

    fn total_memory(&self) -> (r: Option<u64>) {
        Some(self.total_memory)
    }

    fn available_memory(&self) -> (r: Option<u64>) {
        None
    }

    /// Waits until queued work completes, which is not implemented.
    fn synchronize(&self) -> (r: Result<(), EngineError>) {
        Err(
            EngineError::Backend {
                backend: "cuda",
                stage: "synchronize",
                reason: owned("CUDA backend is not implemented"),
            },
        )
    }

    fn supports_dtype(&self, dtype: DType) -> (r: bool) {
        matches!(dtype, DType::F32 | DType::F16 | DType::BF16)
    }
}

/// How one element of a kernel's output compares with the reference: whether it
/// agrees within the tolerance, and the absolute and relative error where both
/// values are finite.
#[derive(Debug, Clone, Copy)]
pub struct Comparison {
    pub agrees: bool,
    pub errors: Option<(Float32, Float32)>,
}

impl Comparison {
    /// The absolute error, zero where there is none.
    pub open spec fn absolute(self) -> Float32 {
        match self.errors {
            Some((abs, _)) => abs,
            None => Float32::spec_zero(),
        }
    }

    /// The relative error, zero where there is none.
    pub open spec fn relative(self) -> Float32 {
        match self.errors {
            Some((_, rel)) => rel,
            None => Float32::spec_zero(),
        }
    }
}

/// Result of comparing a kernel's output against the reference.
#[derive(Debug)]
pub struct ValidationReport {
    pub kernel: String,
    pub elements: usize,
    pub mismatches: usize,
    pub max_abs_error: Float32,
    pub max_rel_error: Float32,
    /// Index of the worst mismatch, for debugging.
    pub worst_index: Option<usize>,
}

impl ValidationReport {
    pub fn passed(&self) -> (r: bool)
        ensures
            r == (self.mismatches == 0),
    {
        self.mismatches == 0
    }

    /// The report as one line, with the two largest errors written as given.
    pub open spec fn line(&self, abs: Seq<char>, rel: Seq<char>) -> Seq<char> {
        let worst = match self.worst_index {
            Some(i) => "Some("@ + decimal(i as nat) + ")"@,
            None => "None"@,
        };
        if self.mismatches == 0 {
            self.kernel@ + ": PASS ("@ + decimal(self.elements as nat) + " elements, max abs "@
                + abs + ", max rel "@ + rel + ")"@
        } else {
            self.kernel@ + ": FAIL \u{2014} "@ + decimal(self.mismatches as nat) + "/"@ + decimal(
                self.elements as nat,
            ) + " elements differ (max abs "@ + abs + ", max rel "@ + rel + ", worst at "@ + worst
                + ")"@
        }
    }

    /// The report as one line. How the largest errors are written is the
    /// caller's choice.
    pub fn render(&self, abs: &str, rel: &str) -> (r: String)
        ensures
            r@ == self.line(abs@, rel@),
    {
        let mut out = owned(self.kernel.as_str());
        if self.passed() {
            out.append(": PASS (");
            push_count(&mut out, self.elements);
            out.append(" elements, max abs ");
            out.append(abs);
            out.append(", max rel ");
            out.append(rel);
        } else {
            out.append(": FAIL \u{2014} ");
            push_count(&mut out, self.mismatches);
            out.append("/");
            push_count(&mut out, self.elements);
            out.append(" elements differ (max abs ");
            out.append(abs);
            out.append(", max rel ");
            out.append(rel);
            out.append(", worst at ");
            let ghost before = out@;
            match self.worst_index {
                Some(i) => {
                    out.append("Some(");
                    push_count(&mut out, i);
                    out.append(")");
                    proof {
                        assert(out@ =~= before + ("Some("@ + decimal(i as nat) + ")"@));
                    }
                },
                None => {
                    out.append("None");
                },
            }
        }
        out.append(")");
        out
    }
}

/// How many elements do not agree.
pub open spec fn disagreements(all: Seq<Comparison>) -> int {
    all.filter(|c: Comparison| !c.agrees).len() as int
}

/// The largest of some errors, zero where none is above it.
pub open spec fn largest(errors: Seq<Float32>) -> Float32
    decreases errors.len(),
{
    if errors.len() == 0 {
        Float32::spec_zero()
    } else {
        let before = largest(errors.drop_last());
        if before.below(errors.last()) {
            errors.last()
        } else {
            before
        }
    }
}

pub open spec fn absolutes(all: Seq<Comparison>) -> Seq<Float32> {
    all.map_values(|c: Comparison| c.absolute())
}

pub open spec fn relatives(all: Seq<Comparison>) -> Seq<Float32> {
    all.map_values(|c: Comparison| c.relative())
}

/// Whether an index is that of the first largest error above zero.
pub open spec fn is_worst(all: Seq<Comparison>, index: Option<usize>) -> bool {
    match index {
        None => forall|i: int|
            0 <= i < all.len() ==> !Float32::spec_zero().below((#[trigger] all[i]).absolute()),
        Some(at) => {
            &&& at < all.len()
            &&& Float32::spec_zero().below(all[at as int].absolute())
            &&& forall|i: int|
                0 <= i < all.len() ==> !all[at as int].absolute().below(
                    (#[trigger] all[i]).absolute(),
                )
            &&& forall|i: int|
                0 <= i < at ==> (#[trigger] all[i]).absolute().nan() || all[i].absolute().below(
                    all[at as int].absolute(),
                )
        },
    }
}

/// Compares a kernel's output against the reference, from how its elements
/// compare. Outputs of different lengths are a bug in the harness and no
/// comparison.
///
/// Every kernel must pass this before it is benchmarked, let alone used.
pub fn validate(
    kernel: &str,
    expected: usize,
    actual: usize,
    comparisons: &[Comparison],
) -> (r: Result<ValidationReport, EngineError>)
    requires
        expected == actual ==> comparisons@.len() == expected,
    ensures
        match r {
            Err(e) => expected != actual && e.is_internal(
                "validation shape mismatch for "@ + kernel@ + ": reference has "@ + decimal(
                    expected as nat,
                ) + " elements, kernel produced "@ + decimal(actual as nat),
            ),
            Ok(report) => {
                &&& expected == actual
                &&& report.kernel@ == kernel@
                &&& report.elements == expected
                &&& report.mismatches == disagreements(comparisons@)
                &&& report.max_abs_error == largest(absolutes(comparisons@))
                &&& report.max_rel_error == largest(relatives(comparisons@))
                &&& is_worst(comparisons@, report.worst_index)
            },
        },
{
    if expected != actual {
        let mut m = join3("validation shape mismatch for ", kernel, ": reference has ");
        push_count(&mut m, expected);
        m.append(" elements, kernel produced ");
        push_count(&mut m, actual);
        return Err(EngineError::Internal(m));
    }
    let mut mismatches: usize = 0;
    let mut max_abs = Float32::zero();
    let mut max_rel = Float32::zero();
    let mut worst: Option<usize> = None;
    let mut i: usize = 0;
    proof {
        reveal(Seq::filter);
        assert(comparisons@.take(0) =~= Seq::<Comparison>::empty());
        assert(absolutes(comparisons@.take(0)) =~= Seq::<Float32>::empty());
        assert(relatives(comparisons@.take(0)) =~= Seq::<Float32>::empty());
    }
    while i < comparisons.len()
        invariant
            i <= comparisons@.len(),
            mismatches <= i,
            mismatches == disagreements(comparisons@.take(i as int)),
            max_abs == largest(absolutes(comparisons@.take(i as int))),
            max_rel == largest(relatives(comparisons@.take(i as int))),
            is_worst(comparisons@.take(i as int), worst),
            match worst {
                None => max_abs == Float32::spec_zero(),
                Some(at) => at < i && max_abs == comparisons@[at as int].absolute(),
            },
        decreases comparisons@.len() - i,
    {
        let c: Comparison = comparisons[i];
        let ghost done = comparisons@.take(i as int);
        let ghost more = comparisons@.take(i + 1);
        let (abs, rel) = match c.errors {
            Some((abs, rel)) => (abs, rel),
            None => (Float32::zero(), Float32::zero()),
        };
        proof {
            reveal(Seq::filter);
            assert(more.drop_last() =~= done);
            assert(absolutes(more).drop_last() =~= absolutes(done));
            assert(relatives(more).drop_last() =~= relatives(done));
            assert(absolutes(more).last() == abs);
            assert(relatives(more).last() == rel);
            assert forall|k: int| 0 <= k < i implies #[trigger] more[k] == done[k] by {}
        }
        if !c.agrees {
            mismatches += 1;
        }
        if max_abs.lt(abs) {
            max_abs = abs;
            worst = Some(i);
        }
        if max_rel.lt(rel) {
            max_rel = rel;
        }
        i += 1;
    }
    proof {
        assert(comparisons@.take(comparisons@.len() as int) =~= comparisons@);
    }
    Ok(
        ValidationReport {
            kernel: owned(kernel),
            elements: expected,
            mismatches,
            max_abs_error: max_abs,
            max_rel_error: max_rel,
            worst_index: worst,
        },
    )
}

/// What is said of CUDA that cannot be used.
pub proof fn law_reasons_are_told(requested: usize, available: usize)
    ensures
        CudaUnavailable::FeatureDisabled.text()
            == "CUDA support was not compiled in; rebuild with --features cuda"@,
        CudaUnavailable::NoDriver.text() == "no CUDA driver found"@,
        CudaUnavailable::NoDevices.text() == "CUDA driver found but no devices available"@,
        (CudaUnavailable::NoSuchDevice { requested, available }).text() == "CUDA device "@
            + decimal(requested as nat) + " requested but only "@ + decimal(available as nat)
            + " device(s) present"@,
{
}

/// The largest of some errors is one of them, or zero, and none is above it.
pub proof fn law_no_error_is_above_the_largest(errors: Seq<Float32>, i: int)
    requires
        0 <= i < errors.len(),
    ensures
        !largest(errors).below(errors[i]) || errors[i].nan() || largest(errors).nan(),
        largest(errors) == Float32::spec_zero() || errors.contains(largest(errors)),
        !largest(errors).nan(),
    decreases errors.len(),
{
    let front = errors.drop_last();
    let last = errors.last();
    if front.len() > 0 {
        law_no_error_is_above_the_largest(front, if i < front.len() {
            i
        } else {
            0
        });
        if front.contains(largest(front)) {
            let k = choose|k: int| 0 <= k < front.len() && front[k] == largest(front);
            assert(errors[k] == largest(front));
        }
        if i < front.len() {
            assert(front[i] == errors[i]);
        }
    } else {
        assert(front =~= seq![]);
        assert(largest(front) == Float32::spec_zero());
    }
    if largest(front).below(last) {
        assert(errors[errors.len() - 1] == last);
    }
}

/// Each element that does not agree is counted once, and no other.
pub proof fn law_disagreements_are_counted(all: Seq<Comparison>, more: Comparison)
    ensures
        disagreements(seq![]) == 0,
        disagreements(all.push(more)) == disagreements(all) + if more.agrees {
            0int
        } else {
            1
        },
        0 <= disagreements(all) <= all.len(),
        more.errors matches Some((abs, rel)) ==> more.absolute() == abs && more.relative() == rel,
        more.errors is None ==> more.absolute().bits == 0 && more.relative().bits == 0,
{
    reveal(Seq::filter);
    let differs = |c: Comparison| !c.agrees;
    assert(all.push(more).drop_last() =~= all);
    all.lemma_filter_len(differs);
    assert(Seq::<Comparison>::empty().filter(differs) =~= Seq::empty());
}

/// A report says of a kernel whether it passed, and how many of its elements differ
/// where it did not.
pub proof fn law_reports_say_whether_they_passed(r: ValidationReport, abs: Seq<char>, rel: Seq<char>)
    ensures
        r.mismatches == 0 ==> r.line(abs, rel) == r.kernel@ + ": PASS ("@ + decimal(
            r.elements as nat,
        ) + " elements, max abs "@ + abs + ", max rel "@ + rel + ")"@,
        r.mismatches > 0 && r.worst_index is None ==> r.line(abs, rel) == r.kernel@
            + ": FAIL \u{2014} "@ + decimal(r.mismatches as nat) + "/"@ + decimal(r.elements as nat)
            + " elements differ (max abs "@ + abs + ", max rel "@ + rel + ", worst at "@ + "None"@
            + ")"@,
        r.mismatches > 0 ==> (r.worst_index matches Some(i) ==> r.line(abs, rel) == r.kernel@
            + ": FAIL \u{2014} "@ + decimal(r.mismatches as nat) + "/"@ + decimal(r.elements as nat)
            + " elements differ (max abs "@ + abs + ", max rel "@ + rel + ", worst at "@ + ("Some("@
            + decimal(i as nat) + ")"@) + ")"@),
{
}

/// The worst element is the first of those with the largest error, where any has an
/// error above zero.
pub proof fn law_the_worst_has_the_largest_error(all: Seq<Comparison>, at: usize, i: int)
    requires
        is_worst(all, Some(at)),
        0 <= i < all.len(),
    ensures
        at < all.len(),
        0 < all[at as int].absolute().bits <= 0x7f80_0000,
        !all[at as int].absolute().below(all[i].absolute()),
        i < at ==> !all[i].absolute().same(all[at as int].absolute()),
        absolutes(all)[i] == all[i].absolute(),
        relatives(all)[i] == all[i].relative(),
        absolutes(all).len() == all.len(),
{
}

/// What a CUDA device says of itself.
pub proof fn law_cuda_devices_describe_themselves(b: CudaBackend, dtype: DType)
    ensures
        b.label() == "cuda"@,
        b.place() == Device::Cuda(b.number()),
        b.memory() == Some(b.bytes()),
        !b.reports_available(Some(0)),
        b.executes(dtype) <==> !(dtype is I8) && !(dtype is I4),
{
}

} // verus!
