use vstd::prelude::*;

verus! {

/// A corpus item as the stages see it: opaque but for its length.
pub trait Record {
    spec fn spec_length(&self) -> nat;

    fn length(&self) -> (r: usize)
        ensures
            r as nat == self.spec_length(),
    ;
}

/// A sentence held as its sequence of tokens.
impl<U> Record for Vec<U> {
    open spec fn spec_length(&self) -> nat {
        self@.len()
    }

    fn length(&self) -> (r: usize) {
        self.len()
    }
}

/// A record of any type, paired with the length that its source reports
/// for it.
#[derive(Debug, Clone, PartialEq, Eq)]
pub struct Measured<T> {
    pub length: usize,
    pub record: T,
}

impl<T> Record for Measured<T> {
    open spec fn spec_length(&self) -> nat {
        self.length as nat
    }

    fn length(&self) -> (r: usize) {
        self.length
    }
}

/// What a stage answers after being handed the result of one pull from
/// upstream.
#[derive(Debug, PartialEq, Eq)]
pub enum Step<T, E> {
    /// Nothing to hand on yet: pull upstream again and hand the result over.
    Pull,
    /// Hand this item downstream.
    Emit(Result<T, E>),
    /// The stage is exhausted.
    Exhausted,
}

/// The items that a run of steps handed downstream, failures included.
pub open spec fn emitted<T, E>(steps: Seq<Step<T, E>>) -> Seq<Result<T, E>>
    decreases steps.len(),
{
    if steps.len() == 0 {
        Seq::empty()
    } else {
        let before = emitted(steps.drop_last());
        match steps.last() {
            Step::Emit(item) => before.push(item),
            _ => before,
        }
    }
}

/// The records that a run of steps handed downstream.
pub open spec fn emitted_records<T, E>(steps: Seq<Step<T, E>>) -> Seq<T>
    decreases steps.len(),
{
    if steps.len() == 0 {
        Seq::empty()
    } else {
        let before = emitted_records(steps.drop_last());
        match steps.last() {
            Step::Emit(Ok(rec)) => before.push(rec),
            _ => before,
        }
    }
}

/// The records among the results of a run of pulls.
pub open spec fn pulled_records<T, E>(pulls: Seq<Option<Result<T, E>>>) -> Seq<T>
    decreases pulls.len(),
{
    if pulls.len() == 0 {
        Seq::empty()
    } else {
        let before = pulled_records(pulls.drop_last());
        match pulls.last() {
            Some(Ok(rec)) => before.push(rec),
            _ => before,
        }
    }
}

} // verus!
