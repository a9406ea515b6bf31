//! The one error type of the library.

use vstd::prelude::*;

verus! {

/// What was wrong with a configuration.
#[derive(Clone, Copy, Debug, PartialEq, Eq, Structural)]
pub enum ErrorKind {
    /// The rule string is not of the form `B<digits>/S<digits>` with digits
    /// from 0 to 8.
    Format,
    /// The grid has no columns or no rows, or is too large to store.
    Dimension,
    /// The number of workers is zero.
    Parallelism,
    /// The seed has fewer rows than the grid, or a row too short for it.
    Seed,
    /// A generation handed in from outside has the wrong number of bytes.
    Size,
    /// A row handed in lies beyond the last row, has the wrong number of
    /// bytes, or has been handed in before.
    Row,
    /// There is no accelerator device with the index asked for.
    Backend,
}

/// A rejected construction or configuration.
#[derive(Clone, Copy, Debug, PartialEq, Eq, Structural)]
pub struct AutomataError {
    pub kind: ErrorKind,
}

impl AutomataError {
    /// The error's text.
    pub fn message(&self) -> (msg: String)
        ensures
            msg@ == (match self.kind {
                ErrorKind::Format => "The rule string must read B<digits>/S<digits>, digits 0 to 8."@,
                ErrorKind::Dimension => "The grid must have columns and rows, and fit in memory."@,
                ErrorKind::Parallelism => "The number of workers must not be zero."@,
                ErrorKind::Seed => "The seed does not cover the grid."@,
                ErrorKind::Size => "The generation does not have the grid's size."@,
                ErrorKind::Row => "The row is not one that is missing."@,
                ErrorKind::Backend => "Cannot find a suitable OpenCL device for gpu_i."@,
            }),
    {
        match self.kind {
            ErrorKind::Format => String::from_str(
                "The rule string must read B<digits>/S<digits>, digits 0 to 8.",
            ),
            ErrorKind::Dimension => String::from_str(
                "The grid must have columns and rows, and fit in memory.",
            ),
            ErrorKind::Parallelism => String::from_str("The number of workers must not be zero."),
            ErrorKind::Seed => String::from_str("The seed does not cover the grid."),
            ErrorKind::Size => String::from_str("The generation does not have the grid's size."),
            ErrorKind::Row => String::from_str("The row is not one that is missing."),
            ErrorKind::Backend => String::from_str(
                "Cannot find a suitable OpenCL device for gpu_i.",
            ),
        }
    }
}

/// Accepts the index `gpu_i` of an accelerator device where there are
/// `n_devices` devices, and rejects it where there are not that many.
pub fn check_device(gpu_i: usize, n_devices: usize) -> (r: Result<(), AutomataError>)
    ensures
        gpu_i < n_devices ==> r is Ok,
        gpu_i >= n_devices ==> r == Err::<(), AutomataError>(
            AutomataError { kind: ErrorKind::Backend },
        ),
{
    if gpu_i >= n_devices {
        Err(AutomataError { kind: ErrorKind::Backend })
    } else {
        Ok(())
    }
}

} // verus!
