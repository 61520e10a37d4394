//! The description of a test case of the bundler.

use vstd::prelude::*;
use crate::options::InputOptions;

verus! {

/// Where the output of a build goes.
#[derive(Debug)]
pub struct OutputOptions {
    pub dir: Option<String>,
}

/// The error that a test case expects the build to end with.
#[derive(Debug)]
pub struct ExpectedError {
    pub code: String,
    pub message: String,
}

/// One test case: the options of the build and the error, if any, that it is to end with.
#[derive(Debug)]
pub struct TestConfig {
    pub input: InputOptions,
    pub output: OutputOptions,
    pub expected_error: Option<ExpectedError>,
}

impl TestConfig {
    /// Whether the case expects the build to fail.
    pub fn expects_failure(&self) -> (r: bool)
        ensures
            r == (self.expected_error is Some),
    {
        self.expected_error.is_some()
    }
}

} // verus!
