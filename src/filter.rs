use crate::source::{emitted, Record, Step};
use vstd::prelude::*;

verus! {

/// Whether an item gets through a length bound: failures always do.
pub open spec fn passes<T: Record, E>(item: Result<T, E>, max_len: nat) -> bool {
    match item {
        Ok(rec) => rec.spec_length() <= max_len,
        Err(_) => true,
    }
}

/// The filter's answer to one pull.
pub open spec fn filter_step<T: Record, E>(max_len: nat, pulled: Option<Result<T, E>>) -> Step<T, E> {
    match pulled {
        None => Step::Exhausted,
        Some(item) => if passes(item, max_len) {
            Step::Emit(item)
        } else {
            Step::Pull
        },
    }
}

/// The filter's answers to a run of pulls that each returned an item.
pub open spec fn filter_run<T: Record, E>(max_len: nat, items: Seq<Result<T, E>>) -> Seq<Step<T, E>> {
    items.map_values(|item: Result<T, E>| filter_step(max_len, Some(item)))
}

/// Drops records longer than a bound; failures pass untouched.
pub struct LengthFilter {
    max_len: usize,
}

impl LengthFilter {
    pub fn new(max_len: usize) -> (r: Self)
        ensures
            r.max_len() == max_len,
    {
        LengthFilter { max_len }
    }

    pub closed spec fn spec_max_len(&self) -> usize {
        self.max_len
    }

    #[verifier::when_used_as_spec(spec_max_len)]
    pub fn max_len(&self) -> (r: usize)
        ensures
            r == self.spec_max_len(),
    {
        self.max_len
    }

    /// Takes the result of one pull: an item that passes is emitted, a
    /// record that is too long asks for the next pull, and the end of the
    /// source ends the filter.
    pub fn feed<T: Record, E>(&self, pulled: Option<Result<T, E>>) -> (r: Step<T, E>)
        ensures
            r == filter_step(self.max_len() as nat, pulled),
    {
        match pulled {
            None => Step::Exhausted,
            Some(Ok(rec)) => {
                if rec.length() <= self.max_len {
                    Step::Emit(Ok(rec))
                } else {
                    Step::Pull
                }
            },
            Some(Err(e)) => Step::Emit(Err(e)),
        }
    }
}

/// Over any run of pulled items, the filter emits exactly the items that
/// pass the bound, in the order they came, failures in place among them.
pub proof fn lemma_filter_keeps_passing_subsequence<T: Record, E>(
    max_len: nat,
    items: Seq<Result<T, E>>,
)
    ensures
        emitted(filter_run(max_len, items)) == items.filter(
            |item: Result<T, E>| passes(item, max_len),
        ),
    decreases items.len(),
{
    let pred = |item: Result<T, E>| passes(item, max_len);
    reveal(Seq::filter);
    if items.len() == 0 {
        assert(items.filter(pred) =~= Seq::<Result<T, E>>::empty());
    } else {
        lemma_filter_keeps_passing_subsequence(max_len, items.drop_last());
        let run = filter_run(max_len, items);
        assert(run.drop_last() =~= filter_run(max_len, items.drop_last()));
        assert(run.last() == filter_step(max_len, Some(items.last())));
        assert(items.filter(pred) == if pred(items.last()) {
            items.drop_last().filter(pred).push(items.last())
        } else {
            items.drop_last().filter(pred)
        });
    }
}

} // verus!
