//! Why something could not be read, and what a finished command left behind.

use vstd::prelude::*;

verus! {

/// Why a reading failed.
#[derive(Clone, Copy, PartialEq, Eq, Structural, Debug)]
pub enum ReadError {
    /// The processor's model is not among the processor information.
    CpuModelNotFound,
    /// The processor time counters have no line for all processors together.
    CpuLineMissing,
    /// There is no memory model to show.
    MemoryModelUnreadable,
    /// `nvidia-smi` could not be started.
    NvidiaSmiNotFound,
    /// `nvidia-smi` reported a failure.
    NvidiaSmiFailed,
}

/// The wording of an error.
pub open spec fn error_text(e: ReadError) -> Seq<char> {
    match e {
        ReadError::CpuModelNotFound => "CPU model field not found"@,
        ReadError::CpuLineMissing => "cpu line missing"@,
        ReadError::MemoryModelUnreadable => "Cannot read RAM model"@,
        ReadError::NvidiaSmiNotFound => "nvidia-smi not found (non-NVIDIA, skip)"@,
        ReadError::NvidiaSmiFailed => "nvidia-smi failed"@,
    }
}

impl ReadError {
    /// The wording of the error.
    pub fn message(&self) -> (res: String)
        ensures
            res@ == error_text(*self),
    {
        match self {
            ReadError::CpuModelNotFound => "CPU model field not found".to_owned(),
            ReadError::CpuLineMissing => "cpu line missing".to_owned(),
            ReadError::MemoryModelUnreadable => "Cannot read RAM model".to_owned(),
            ReadError::NvidiaSmiNotFound => "nvidia-smi not found (non-NVIDIA, skip)".to_owned(),
            ReadError::NvidiaSmiFailed => "nvidia-smi failed".to_owned(),
        }
    }
}

/// Why `dmidecode` gave no memory modules.
#[derive(PartialEq, Eq, Debug)]
pub enum DmidecodeError {
    /// It could not be started, for the reason that is told.
    NotRun(String),
    /// It reported a failure.
    Failed,
    /// It listed no memory module.
    NoModules,
}

/// [`DmidecodeError`] with its text as a sequence.
pub enum DmidecodeErrorView {
    NotRun(Seq<char>),
    Failed,
    NoModules,
}

impl View for DmidecodeError {
    type V = DmidecodeErrorView;

    open spec fn view(&self) -> DmidecodeErrorView {
        match self {
            DmidecodeError::NotRun(reason) => DmidecodeErrorView::NotRun(reason@),
            DmidecodeError::Failed => DmidecodeErrorView::Failed,
            DmidecodeError::NoModules => DmidecodeErrorView::NoModules,
        }
    }
}

/// The wording of a failure of `dmidecode`.
pub open spec fn dmidecode_error_text(e: DmidecodeErrorView) -> Seq<char> {
    match e {
        DmidecodeErrorView::NotRun(reason) => reason,
        DmidecodeErrorView::Failed => "dmidecode failed"@,
        DmidecodeErrorView::NoModules => "No RAM modules parsed"@,
    }
}

impl DmidecodeError {
    /// The wording of the error.
    pub fn message(&self) -> (res: String)
        ensures
            res@ == dmidecode_error_text(self@),
    {
        match self {
            DmidecodeError::NotRun(reason) => reason.clone(),
            DmidecodeError::Failed => "dmidecode failed".to_owned(),
            DmidecodeError::NoModules => "No RAM modules parsed".to_owned(),
        }
    }
}

/// What a command that ran to its end reported: whether it succeeded, and its output.
#[derive(Debug)]
pub struct CommandOutput {
    pub success: bool,
    pub stdout: Vec<u8>,
}

} // verus!
