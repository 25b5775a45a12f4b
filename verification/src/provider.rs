//! The provider fallback chain: several lexical providers are tried in a
//! fixed priority order, first success wins, and only when every provider
//! has failed does the lookup fail, with the last underlying failure.
//!
//! The providers themselves perform the lookups outside this crate; the
//! chain's decisions are made here, on the outcomes they report.

use vstd::prelude::*;

use crate::english::EnglishQuizError;

verus! {

/// The outcome one provider reports for one lookup.
#[derive(Debug, Clone)]
pub enum LookupOutcome<T> {
    Success(T),
    Failure(String),
}

/// The failure message when a chain holds no provider at all.
pub open spec fn no_provider_text() -> Seq<char> {
    "no providers configured"@
}

/// What the chain resolves a lookup to, given the outcomes its providers
/// would report, in priority order: the first success, or else the last
/// failure.
pub open spec fn chain_result<T>(outcomes: Seq<LookupOutcome<T>>) -> Result<T, Seq<char>>
    decreases outcomes.len(),
{
    if outcomes.len() == 0 {
        Err(no_provider_text())
    } else {
        match outcomes.first() {
            LookupOutcome::Success(v) => Ok(v),
            LookupOutcome::Failure(e) => if outcomes.len() == 1 {
                Err(e@)
            } else {
                chain_result(outcomes.drop_first())
            },
        }
    }
}

/// What one fallback step decides.
pub enum ChainStep<T> {
    /// A provider answered: the lookup resolves to its value.
    Resolved(T),
    /// The provider failed but another one is configured: try that one.
    TryNext(usize),
    /// The last provider failed too: the lookup fails with its failure.
    Exhausted(String),
}

/// The ordered fallback group: how many providers are configured, in the
/// priority order the driver holds them in.
pub struct ProviderChain {
    provider_count: usize,
}

impl ProviderChain {
    /// How many providers are configured.
    pub closed spec fn spec_provider_count(&self) -> usize {
        self.provider_count
    }

    /// A chain over `provider_count` providers in priority order.
    pub fn new(provider_count: usize) -> (r: ProviderChain)
        ensures
            r.spec_provider_count() == provider_count,
    {
        ProviderChain { provider_count }
    }

    /// How many providers are configured.
    pub fn provider_count(&self) -> (r: usize)
        ensures
            r == self.spec_provider_count(),
    {
        self.provider_count
    }

    /// One fallback step: what to do after the provider at `index` reported
    /// this outcome. The driver performs the lookups one at a time, in
    /// order, and follows these decisions.
    pub fn step<T>(&self, index: usize, outcome: LookupOutcome<T>) -> (r: ChainStep<T>)
        requires
            index < self.spec_provider_count(),
        ensures
            match outcome {
                LookupOutcome::Success(v) => r == ChainStep::Resolved(v),
                LookupOutcome::Failure(e) => if index + 1 < self.spec_provider_count() {
                    r == ChainStep::<T>::TryNext((index + 1) as usize)
                } else {
                    r == ChainStep::<T>::Exhausted(e)
                },
            },
    {
        match outcome {
            LookupOutcome::Success(v) => ChainStep::Resolved(v),
            LookupOutcome::Failure(e) => if index + 1 < self.provider_count {
                ChainStep::TryNext(index + 1)
            } else {
                ChainStep::Exhausted(e)
            },
        }
    }

    /// Resolve a lookup from the outcomes of all configured providers, in
    /// priority order: the first success wins; when every provider failed,
    /// the lookup fails with an `ApiError` wrapping the last failure.
    pub fn resolve<T>(&self, outcomes: Vec<LookupOutcome<T>>) -> (r: Result<T, EnglishQuizError>)
        ensures
            match r {
                Ok(v) => chain_result(outcomes@) == Ok::<T, Seq<char>>(v),
                Err(e) => {
                    &&& e is ApiError
                    &&& chain_result(outcomes@) == Err::<T, Seq<char>>(e->ApiError_0@)
                },
            },
    {
        let ghost orig = outcomes@;
        let n = outcomes.len();
        if n == 0 {
            return Err(EnglishQuizError::ApiError("no providers configured".to_owned()));
        }
        let mut rest = outcomes;
        let mut i: usize = 0;
        proof {
            assert(orig.skip(0) =~= orig);
        }
        while i < n
            invariant
                0 <= i < n,
                n == orig.len(),
                orig == outcomes@,
                rest@ == orig.skip(i as int),
                chain_result(orig) == chain_result(orig.skip(i as int)),
            decreases n - i,
        {
            proof {
                assert(rest@[0] == orig[i as int]);
            }
            let oc = rest.remove(0);
            match oc {
                LookupOutcome::Success(v) => {
                    return Ok(v);
                },
                LookupOutcome::Failure(msg) => {
                    if i + 1 == n {
                        proof {
                            assert(orig.skip(i as int).len() == 1);
                        }
                        return Err(EnglishQuizError::ApiError(msg));
                    }
                    proof {
                        assert(orig.skip(i as int).drop_first() =~= orig.skip(i as int + 1));
                    }
                },
            }
            i = i + 1;
        }
        proof {
            assert(false);
        }
        Err(EnglishQuizError::ApiError("no providers configured".to_owned()))
    }
}

} // verus!
