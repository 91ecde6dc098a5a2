use vstd::prelude::*;
use vstd::string::StringSliceAdditionalSpecFns;

verus! {

/// The policy that merges the results of repeated attempts into one
/// verdict.
#[derive(Clone, Copy, PartialEq, Eq, Structural, Debug)]
pub enum RetryStrategy {
    Best,
    CombinedBest,
    Median,
    Worst,
    CombinedWorst,
}

impl RetryStrategy {
    /// The lower-case name of the strategy.
    pub fn as_str(&self) -> (r: &'static str)
        ensures
            r@ == self.spec_name(),
    {
        match *self {
            RetryStrategy::Best => "best",
            RetryStrategy::CombinedBest => "combined_best",
            RetryStrategy::Median => "median",
            RetryStrategy::Worst => "worst",
            RetryStrategy::CombinedWorst => "combined_worst",
        }
    }

    /// The name of each strategy.
    pub open spec fn spec_name(self) -> Seq<char> {
        match self {
            RetryStrategy::Best => "best"@,
            RetryStrategy::CombinedBest => "combined_best"@,
            RetryStrategy::Median => "median"@,
            RetryStrategy::Worst => "worst"@,
            RetryStrategy::CombinedWorst => "combined_worst"@,
        }
    }

    /// The strategy a name denotes.
    pub open spec fn spec_from_bytes(s: Seq<u8>) -> Option<RetryStrategy> {
        if s == "best".spec_bytes() {
            Some(RetryStrategy::Best)
        } else if s == "combined_best".spec_bytes() {
            Some(RetryStrategy::CombinedBest)
        } else if s == "median".spec_bytes() {
            Some(RetryStrategy::Median)
        } else if s == "worst".spec_bytes() {
            Some(RetryStrategy::Worst)
        } else if s == "combined_worst".spec_bytes() {
            Some(RetryStrategy::CombinedWorst)
        } else {
            None
        }
    }

    /// The strategy `retry_strategy` names, or `None` for an unknown name.
    pub fn from_str(retry_strategy: &str) -> (r: Option<RetryStrategy>)
        ensures
            r == Self::spec_from_bytes(retry_strategy.spec_bytes()),
    {
        Self::from_bytes(retry_strategy.as_bytes())
    }

    /// The strategy the byte string names, or `None` for an unknown name.
    pub fn from_bytes(retry_strategy: &[u8]) -> (r: Option<RetryStrategy>)
        ensures
            r == Self::spec_from_bytes(retry_strategy@),
    {
        if crate::json::bytes_eq(retry_strategy, "best".as_bytes()) {
            Some(RetryStrategy::Best)
        } else if crate::json::bytes_eq(retry_strategy, "combined_best".as_bytes()) {
            Some(RetryStrategy::CombinedBest)
        } else if crate::json::bytes_eq(retry_strategy, "median".as_bytes()) {
            Some(RetryStrategy::Median)
        } else if crate::json::bytes_eq(retry_strategy, "worst".as_bytes()) {
            Some(RetryStrategy::Worst)
        } else if crate::json::bytes_eq(retry_strategy, "combined_worst".as_bytes()) {
            Some(RetryStrategy::CombinedWorst)
        } else {
            None
        }
    }
}

} // verus!
