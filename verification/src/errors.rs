//! The kinds of failure of a run, and what each means for the run.

use crate::fragments::ExtractError;
use crate::inspect::FragmentError;
use crate::plan::FailurePolicy;
use crate::source::ConfigError;
use vstd::prelude::*;

verus! {

/// What went wrong in a run.
#[derive(Clone, Copy, Debug, PartialEq, Eq, Structural)]
pub enum ErrorKind {
    /// The arguments name no single place to read from.
    Config,
    /// The input file does not exist.
    NotFound,
    /// The input file could not be read.
    Read,
    /// The text holds more markers of one kind than of the other.
    MarkerCountMismatch,
    /// A closing marker has ended before the opening marker that it is
    /// paired with begins.
    ReversedPair,
    /// A fragment gives no command name.
    FragmentParse,
    /// The output directory could not be created.
    DirectoryCreate,
    /// A file could not be written.
    FileWrite,
}

/// The exit code that stands for a kind of failure: a number of its own
/// for each kind, and none of them zero.
pub open spec fn exit_code_of(kind: ErrorKind) -> u8 {
    match kind {
        ErrorKind::Config => 1,
        ErrorKind::NotFound => 2,
        ErrorKind::Read => 3,
        ErrorKind::MarkerCountMismatch => 4,
        ErrorKind::ReversedPair => 5,
        ErrorKind::FragmentParse => 6,
        ErrorKind::DirectoryCreate => 7,
        ErrorKind::FileWrite => 8,
    }
}

/// Whether a failure of this kind ends the run. A file that cannot be
/// written never does: the run goes on with the next file. A fragment
/// without a command name does unless such fragments are skipped. Every
/// other failure does.
pub open spec fn ends_run(kind: ErrorKind, policy: FailurePolicy) -> bool {
    match kind {
        ErrorKind::FileWrite => false,
        ErrorKind::FragmentParse => policy == FailurePolicy::AbortOnError,
        _ => true,
    }
}

/// The exit code of a run: that of the failure that ended it; without
/// such a failure, that of a failed write where a file could not be
/// written; and zero where nothing went wrong.
pub open spec fn exit_code_after(ended_by: Option<ErrorKind>, failed_writes: nat) -> u8 {
    match ended_by {
        Some(kind) => exit_code_of(kind),
        None => if failed_writes > 0 {
            exit_code_of(ErrorKind::FileWrite)
        } else {
            0
        },
    }
}

/// The exit code of a run that `ended_by` ended, if anything did, and in
/// which `failed_writes` files could not be written.
pub fn run_exit_code(ended_by: Option<ErrorKind>, failed_writes: usize) -> (code: u8)
    ensures
        code == exit_code_after(ended_by, failed_writes as nat),
        code == 0 <==> ended_by is None && failed_writes == 0,
{
    match ended_by {
        Some(kind) => kind.exit_code(),
        None => if failed_writes > 0 {
            ErrorKind::FileWrite.exit_code()
        } else {
            0
        },
    }
}

impl ErrorKind {
    /// The exit code of a run that ends with a failure of this kind.
    pub fn exit_code(self) -> (code: u8)
        ensures
            code == exit_code_of(self),
            code != 0,
    {
        match self {
            ErrorKind::Config => 1,
            ErrorKind::NotFound => 2,
            ErrorKind::Read => 3,
            ErrorKind::MarkerCountMismatch => 4,
            ErrorKind::ReversedPair => 5,
            ErrorKind::FragmentParse => 6,
            ErrorKind::DirectoryCreate => 7,
            ErrorKind::FileWrite => 8,
        }
    }

    /// Whether a failure of this kind ends the run.
    pub fn aborts(self, policy: FailurePolicy) -> (fatal: bool)
        ensures
            fatal == ends_run(self, policy),
    {
        match self {
            ErrorKind::FileWrite => false,
            ErrorKind::FragmentParse => policy == FailurePolicy::AbortOnError,
            _ => true,
        }
    }
}

impl ConfigError {
    /// The kind of this failure.
    pub fn kind(self) -> (kind: ErrorKind)
        ensures
            kind == ErrorKind::Config,
    {
        ErrorKind::Config
    }
}

impl ExtractError {
    /// The kind of this failure.
    pub fn kind(self) -> (kind: ErrorKind)
        ensures
            kind == match self {
                ExtractError::MarkerCountMismatch { .. } => ErrorKind::MarkerCountMismatch,
                ExtractError::ReversedPair { .. } => ErrorKind::ReversedPair,
            },
    {
        match self {
            ExtractError::MarkerCountMismatch { .. } => ErrorKind::MarkerCountMismatch,
            ExtractError::ReversedPair { .. } => ErrorKind::ReversedPair,
        }
    }
}

impl FragmentError {
    /// The kind of this failure.
    pub fn kind(self) -> (kind: ErrorKind)
        ensures
            kind == ErrorKind::FragmentParse,
    {
        ErrorKind::FragmentParse
    }
}

/// Two kinds of failure with the same exit code are the same kind.
pub proof fn lemma_exit_codes_differ(first: ErrorKind, second: ErrorKind)
    requires
        exit_code_of(first) == exit_code_of(second),
    ensures
        first == second,
{
}

} // verus!
