//! Identifiers shared by services.
use vstd::prelude::*;

verus! {

/// The identifier of a strategy.
#[derive(Clone, PartialEq, Debug)]
pub struct StrategyId(String);

/// The identifier of a user.
#[derive(Clone, PartialEq, Debug)]
pub struct UserId(String);

impl StrategyId {
    pub fn new(id: String) -> (r: StrategyId)
        ensures
            r.spec_text() == id@,
    {
        StrategyId(id)
    }

    pub closed spec fn spec_text(&self) -> Seq<char> {
        self.0@
    }

    /// The identifier as text.
    pub fn as_str(&self) -> (r: &str)
        ensures
            r@ == self.spec_text(),
    {
        self.0.as_str()
    }
}

impl UserId {
    pub fn new(id: String) -> (r: UserId)
        ensures
            r.spec_text() == id@,
    {
        UserId(id)
    }

    pub closed spec fn spec_text(&self) -> Seq<char> {
        self.0@
    }

    /// The identifier as text.
    pub fn as_str(&self) -> (r: &str)
        ensures
            r@ == self.spec_text(),
    {
        self.0.as_str()
    }
}

} // verus!
