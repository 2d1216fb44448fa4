use vstd::prelude::*;

verus! {

/// One parsed test report: a suite with its total duration.
pub struct TestSuite {
    /// Dotted identifier of the suite, e.g. `package.ClassName`.
    pub name: String,
    /// Elapsed time of the whole suite, in milliseconds.
    pub time: u64,
    pub test_cases: Vec<TestCase>,
}

/// One test case of a suite; carried along, not read by the grouping.
pub struct TestCase {
    pub name: String,
    /// Elapsed time of the test case, in milliseconds.
    pub time: u64,
    pub classname: String,
}

/// The total duration of the suites whose class name starts with `letter`.
#[derive(Debug, Clone, Copy, PartialEq, Eq, Structural)]
pub struct TimeByLetter {
    /// Duration in milliseconds.
    pub time: u64,
    pub letter: char,
}

impl TimeByLetter {
    pub fn new(time: u64, letter: char) -> (r: Self)
        ensures
            r.time == time,
            r.letter == letter,
    {
        TimeByLetter { time, letter }
    }
}

/// Path of a report file.
pub struct FilePath {
    pub path: String,
}

} // verus!
