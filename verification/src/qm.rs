//! Quality metrics: optional instrumentation that the composite functors carry.

use vstd::prelude::*;

verus! {

/// Instrumentation hooks called around the work of a composite functor.
pub trait QualityMetric: core::default::Default {
    /// Called when the measured work starts.
    fn start(&mut self);

    /// Called when the measured work ends.
    fn end(&mut self);
}

/// The metric that measures nothing; the default of every functor.
pub struct UselessQM;

impl QualityMetric for UselessQM {
    fn start(&mut self) {
    }

    fn end(&mut self) {
    }
}

impl core::default::Default for UselessQM {
    fn default() -> (r: UselessQM)
        ensures
            r == UselessQM,
    {
        UselessQM
    }
}

impl UselessQM {
    /// The text by which the metric presents itself.
    pub fn describe(&self) -> (r: &'static str)
        ensures
            r@ == "(UselessQM)"@,
    {
        "(UselessQM)"
    }
}

} // verus!
