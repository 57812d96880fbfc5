use crate::filter::{filter_step, LengthFilter};
use crate::shuffle::{shuffle_step, Shuffled};
use crate::source::{Record, Step};
use rand_xorshift::XorShiftRng;
use vstd::prelude::*;

verus! {

/// What a length bound makes of one pull: `None` when the item is dropped,
/// else the pull handed on to the next stage.
pub open spec fn after_filter<T: Record, E>(
    max_len: Option<usize>,
    pulled: Option<Result<T, E>>,
) -> Option<Option<Result<T, E>>> {
    match max_len {
        None => Some(pulled),
        Some(m) => match filter_step(m as nat, pulled) {
            Step::Pull => None,
            Step::Emit(item) => Some(Some(item)),
            Step::Exhausted => Some(None),
        },
    }
}

/// The answer of a stage that hands every pull straight on.
pub open spec fn pass_through<T, E>(pulled: Option<Result<T, E>>) -> Step<T, E> {
    match pulled {
        None => Step::Exhausted,
        Some(item) => Step::Emit(item),
    }
}

/// A source's records passed through an optional length filter and then
/// an optional local shuffle; a stage that is not configured is left out.
pub struct Pipeline<T> {
    filter: Option<LengthFilter>,
    shuffle: Option<Shuffled<T>>,
}

impl<T: Record> Pipeline<T> {
    pub closed spec fn spec_max_len(&self) -> Option<usize> {
        match self.filter {
            Some(f) => Some(f.max_len()),
            None => None,
        }
    }

    pub closed spec fn spec_shuffle_buffer_size(&self) -> Option<usize> {
        match self.shuffle {
            Some(s) => Some(s.buffer_size()),
            None => None,
        }
    }

    /// The records held back by the shuffle stage.
    pub closed spec fn buffered(&self) -> Seq<T> {
        match self.shuffle {
            Some(s) => s.buffered(),
            None => Seq::empty(),
        }
    }

    pub closed spec fn is_filling(&self) -> bool {
        match self.shuffle {
            Some(s) => s.is_filling(),
            None => true,
        }
    }

    pub closed spec fn well_formed(&self) -> bool {
        match self.shuffle {
            Some(s) => s.well_formed(),
            None => true,
        }
    }

    /// Chains the stages that are configured; `rng` drives the shuffle.
    pub fn new(max_len: Option<usize>, shuffle_buffer_size: Option<usize>, rng: XorShiftRng) -> (r: Self)
        requires
            shuffle_buffer_size matches Some(n) ==> n < usize::MAX,
        ensures
            r.well_formed(),
            r.max_len() == max_len,
            r.shuffle_buffer_size() == shuffle_buffer_size,
            r.buffered() == Seq::<T>::empty(),
            r.is_filling(),
    {
        let filter = match max_len {
            Some(m) => Some(LengthFilter::new(m)),
            None => None,
        };
        let shuffle = match shuffle_buffer_size {
            Some(n) => Some(Shuffled::new(n, rng)),
            None => None,
        };
        Pipeline { filter, shuffle }
    }

    #[verifier::when_used_as_spec(spec_max_len)]
    pub fn max_len(&self) -> (r: Option<usize>)
        ensures
            r == self.spec_max_len(),
    {
        match &self.filter {
            Some(f) => Some(f.max_len()),
            None => None,
        }
    }

    #[verifier::when_used_as_spec(spec_shuffle_buffer_size)]
    pub fn shuffle_buffer_size(&self) -> (r: Option<usize>)
        ensures
            r == self.spec_shuffle_buffer_size(),
    {
        match &self.shuffle {
            Some(s) => Some(s.buffer_size()),
            None => None,
        }
    }

    /// Takes the result of one pull from the source and answers for the
    /// whole chain: a record that the filter drops asks for the next pull
    /// and leaves the shuffle untouched; anything else goes on to the
    /// shuffle, or straight out when there is none.
    pub fn feed<E>(&mut self, pulled: Option<Result<T, E>>) -> (r: Step<T, E>)
        requires
            old(self).well_formed(),
        ensures
            final(self).well_formed(),
            final(self).max_len() == old(self).max_len(),
            final(self).shuffle_buffer_size() == old(self).shuffle_buffer_size(),
            after_filter(old(self).max_len(), pulled) is None ==> r == Step::<T, E>::Pull
                && final(self).buffered() == old(self).buffered() && final(self).is_filling()
                == old(self).is_filling(),
            after_filter(old(self).max_len(), pulled) matches Some(p) ==> match old(
                self,
            ).shuffle_buffer_size() {
                None => r == pass_through(p),
                Some(n) => exists|draw: nat|
                    (final(self).buffered(), final(self).is_filling(), r) == #[trigger] shuffle_step(
                        n as nat,
                        old(self).buffered(),
                        old(self).is_filling(),
                        p,
                        draw,
                    ),
            },
    {
        let passed = match &self.filter {
            None => Some(pulled),
            Some(f) => match f.feed(pulled) {
                Step::Pull => None,
                Step::Emit(item) => Some(Some(item)),
                Step::Exhausted => Some(None),
            },
        };
        let ghost handed = passed;
        let ghost old_buffered = self.buffered();
        let ghost old_filling = self.is_filling();
        let ghost mut draw: nat = 0;
        let r = match passed {
            None => Step::Pull,
            Some(p) => match &mut self.shuffle {
                None => match p {
                    None => Step::Exhausted,
                    Some(item) => Step::Emit(item),
                },
                Some(s) => {
                    let ghost size = s.buffer_size() as nat;
                    let r = s.feed(p);
                    proof {
                        draw = choose|d: nat|
                            (s.buffered(), s.is_filling(), r) == #[trigger] shuffle_step(
                                size,
                                old_buffered,
                                old_filling,
                                p,
                                d,
                            );
                    }
                    r
                },
            },
        };
        proof {
            if let Some(p) = handed {
                if let Some(n) = self.shuffle_buffer_size() {
                    assert((self.buffered(), self.is_filling(), r) == shuffle_step(
                        n as nat,
                        old_buffered,
                        old_filling,
                        p,
                        draw,
                    ));
                }
            }
        }
        r
    }
}

} // verus!
