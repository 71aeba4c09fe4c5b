//! The CPU backend: the engine runs with no GPU present.

use crate::error::EngineError;
use crate::traits::{Backend, DType, Device};
use vstd::prelude::*;

verus! {

/// Executes on the host CPU in single precision.
#[derive(Debug, Clone, Copy)]
pub struct CpuBackend {
    _private: (),
}

impl CpuBackend {
    pub fn new() -> (r: Self)
        ensures
            r.place() == Device::Cpu,
    {
        CpuBackend { _private: () }
    }
}

impl Backend for CpuBackend {
    open spec fn label(&self) -> Seq<char> {
        "cpu"@
    }

    open spec fn place(&self) -> Device {
        Device::Cpu
    }

    open spec fn memory(&self) -> Option<u64> {
        None
    }

    open spec fn reports_available(&self, bytes: Option<u64>) -> bool {
        bytes is None
    }

    open spec fn settles(&self, outcome: Result<(), EngineError>) -> bool {
        outcome is Ok
    }

    open spec fn executes(&self, dtype: DType) -> bool {
        dtype is F32
    }

    fn name(&self) -> (r: &'static str) {
        "cpu"
    }

    fn device(&self) -> (r: Device) {
        Device::Cpu
    }

    /// Host memory is not reported: there is no fixed device budget to divide
    /// up, so the operator has to set the number of blocks.
    fn total_memory(&self) -> (r: Option<u64>) {
        None
    }

    fn available_memory(&self) -> (r: Option<u64>) {
        None
    }

    /// Host execution is synchronous, so there is nothing queued.
    fn synchronize(&self) -> (r: Result<(), EngineError>) {
        Ok(())
    }

    /// Half-precision checkpoints are converted at load time rather than
    /// computed in reduced precision.
    fn supports_dtype(&self, dtype: DType) -> (r: bool) {
        matches!(dtype, DType::F32)
    }
}

/// What the CPU says of itself: it has no memory budget of its own, nothing to wait
/// for, and computes in single precision alone.
pub proof fn law_the_cpu_describes_itself(b: CpuBackend, dtype: DType)
    ensures
        b.label() == "cpu"@,
        b.place() is Cpu,
        b.memory() is None,
        !b.reports_available(Some(0)),
        b.settles(Ok(())),
        b.executes(dtype) <==> dtype is F32,
{
}

} // verus!
