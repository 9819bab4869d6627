use vstd::prelude::*;

verus! {

/// What can go wrong in the library's own logic.
#[derive(Debug)]
pub enum Error {
    /// A semester number outside 1 to 4.
    InvalidSemester,
    /// An address without a host before its first ':'.
    InvalidHost,
    /// An address whose port is missing or not a 16-bit unsigned number.
    InvalidPort,
    /// An address whose port is zero.
    ZeroPort,
    /// An address with more than one ':'.
    ExtraColon(String),
    /// An academic year whose halves are not numbers.
    InvalidYear(String),
    /// An academic year whose halves are not consecutive years.
    NonConsecutiveYears(String),
    /// An academic year that starts at the largest year there is.
    YearOverflow(u64),
    /// Codes whose trees could not be fetched within the retry budget.
    ClosureIncomplete(Vec<String>),
}

} // verus!
