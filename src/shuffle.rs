use crate::source::{emitted_records, pulled_records, Step};
use crate::util::{lemma_swap_removed_multiset, swap_removed, RandomRemoveVec};
use rand_xorshift::XorShiftRng;
use vstd::arithmetic::div_mod::{lemma_mod_bound, lemma_small_mod};
use vstd::multiset::Multiset;
use vstd::prelude::*;

verus! {

broadcast use vstd::seq_lib::group_to_multiset_ensures, vstd::multiset::group_multiset_axioms;

/// The shuffler's answer to one pull, given its buffer, whether it is
/// filling, and the number drawn from its generator (taken modulo the
/// number of candidates). The results are the buffer afterwards, whether
/// it fills afterwards, and the answer.
///
/// A size of zero turns shuffling off: every pull is handed straight on.
pub open spec fn shuffle_step<T, E>(
    size: nat,
    buffer: Seq<T>,
    filling: bool,
    pulled: Option<Result<T, E>>,
    draw: nat,
) -> (Seq<T>, bool, Step<T, E>) {
    if size == 0 {
        match pulled {
            None => (buffer, filling, Step::Exhausted),
            Some(item) => (buffer, filling, Step::Emit(item)),
        }
    } else {
        match pulled {
            Some(Err(e)) => (buffer, filling, Step::Emit(Err(e))),
            Some(Ok(rec)) => {
                let grown = buffer.push(rec);
                if filling {
                    (grown, grown.len() < size, Step::Pull)
                } else {
                    let i = (draw % grown.len()) as int;
                    (swap_removed(grown, i), false, Step::Emit(Ok(grown[i])))
                }
            },
            None => if buffer.len() == 0 {
                (buffer, true, Step::Exhausted)
            } else {
                let i = (draw % buffer.len()) as int;
                let rest = swap_removed(buffer, i);
                (rest, rest.len() == 0, Step::Emit(Ok(buffer[i])))
            },
        }
    }
}

/// The shuffler's state and answers after a run of pulls, the `k`-th pull
/// being served with `draws[k]`.
pub open spec fn shuffle_run<T, E>(
    size: nat,
    buffer: Seq<T>,
    filling: bool,
    pulls: Seq<Option<Result<T, E>>>,
    draws: Seq<nat>,
) -> (Seq<T>, bool, Seq<Step<T, E>>)
    decreases pulls.len(),
{
    if pulls.len() == 0 {
        (buffer, filling, Seq::empty())
    } else {
        let (b, f, steps) = shuffle_run(size, buffer, filling, pulls.drop_last(), draws);
        let (b2, f2, s) = shuffle_step(size, b, f, pulls.last(), draws[pulls.len() - 1]);
        (b2, f2, steps.push(s))
    }
}

/// The states that a shuffler of a given size can be in.
pub open spec fn shuffle_state_ok<T>(size: nat, buffer: Seq<T>, filling: bool) -> bool {
    &&& buffer.len() <= size
    &&& filling && size > 0 ==> buffer.len() < size
}

/// Reservoir-style local shuffle: holds up to `buffer_size` records, and
/// for every record that comes in sends out one drawn from the buffer.
pub struct Shuffled<T> {
    buffer: RandomRemoveVec<T>,
    buffer_size: usize,
    filling: bool,
}

impl<T> Shuffled<T> {
    /// The buffer never holds more than `buffer_size` records, and while
    /// filling it holds fewer.
    pub closed spec fn well_formed(&self) -> bool {
        &&& shuffle_state_ok(self.buffer_size as nat, self.buffer@, self.filling)
        &&& self.buffer_size < usize::MAX
    }

    pub closed spec fn buffered(&self) -> Seq<T> {
        self.buffer@
    }

    pub closed spec fn is_filling(&self) -> bool {
        self.filling
    }

    pub closed spec fn spec_buffer_size(&self) -> usize {
        self.buffer_size
    }

    /// A shuffler with an empty buffer, about to fill it.
    pub fn new(buffer_size: usize, rng: XorShiftRng) -> (r: Self)
        requires
            buffer_size < usize::MAX,
        ensures
            r.well_formed(),
            r.buffered() == Seq::<T>::empty(),
            r.is_filling(),
            r.buffer_size() == buffer_size,
    {
        Shuffled {
            buffer: RandomRemoveVec::with_capacity(buffer_size, rng),
            buffer_size,
            filling: true,
        }
    }

    #[verifier::when_used_as_spec(spec_buffer_size)]
    pub fn buffer_size(&self) -> (r: usize)
        ensures
            r == self.spec_buffer_size(),
    {
        self.buffer_size
    }

    /// The number of records held back.
    pub fn len(&self) -> (r: usize)
        requires
            self.well_formed(),
        ensures
            r == self.buffered().len(),
            r <= self.buffer_size(),
    {
        self.buffer.len()
    }

    /// Takes the result of one pull. While filling, a record is kept and
    /// the next pull is asked for; once full, a record is swapped in and
    /// one drawn from the buffer is emitted; a failure is emitted and
    /// touches nothing; the end of the source drains the buffer, one drawn
    /// record per pull, and then ends the shuffler.
    pub fn feed<E>(&mut self, pulled: Option<Result<T, E>>) -> (r: Step<T, E>)
        requires
            old(self).well_formed(),
        ensures
            final(self).well_formed(),
            final(self).buffer_size() == old(self).buffer_size(),
            final(self).buffered().len() <= final(self).buffer_size(),
            exists|draw: nat|
                (final(self).buffered(), final(self).is_filling(), r) == #[trigger] shuffle_step(
                    old(self).buffer_size() as nat,
                    old(self).buffered(),
                    old(self).is_filling(),
                    pulled,
                    draw,
                ),
    {
        let ghost size = self.buffer_size as nat;
        let ghost buffer = self.buffer@;
        let ghost filling = self.filling;
        let ghost mut draw: nat = 0;
        let r = if self.buffer_size == 0 {
            match pulled {
                None => Step::Exhausted,
                Some(item) => Step::Emit(item),
            }
        } else {
            match pulled {
                Some(Err(e)) => Step::Emit(Err(e)),
                Some(Ok(rec)) => {
                    let ghost grown = buffer.push(rec);
                    if self.filling {
                        self.buffer.push(rec);
                        self.filling = self.buffer.len() < self.buffer_size;
                        Step::Pull
                    } else {
                        let out = self.buffer.push_and_remove_random(rec);
                        proof {
                            let i = choose|i: int|
                                0 <= i < grown.len() && out == grown[i] && self.buffer@
                                    == swap_removed(grown, i);
                            lemma_small_mod(i as nat, grown.len());
                            draw = i as nat;
                        }
                        Step::Emit(Ok(out))
                    }
                },
                None => {
                    match self.buffer.remove_random() {
                        None => {
                            self.filling = true;
                            Step::Exhausted
                        },
                        Some(out) => {
                            proof {
                                let i = choose|i: int|
                                    0 <= i < buffer.len() && Some(out) == Some(buffer[i])
                                        && self.buffer@ == swap_removed(buffer, i);
                                lemma_small_mod(i as nat, buffer.len());
                                draw = i as nat;
                            }
                            self.filling = self.buffer.is_empty();
                            Step::Emit(Ok(out))
                        },
                    }
                },
            }
        };
        assert((self.buffered(), self.is_filling(), r) == shuffle_step(
            old(self).buffer_size() as nat,
            old(self).buffered(),
            old(self).is_filling(),
            pulled,
            draw,
        ));
        r
    }
}

} // verus!

verus! {

/// The records that one answer hands downstream.
pub open spec fn step_records<T, E>(s: Step<T, E>) -> Seq<T> {
    match s {
        Step::Emit(Ok(rec)) => seq![rec],
        _ => Seq::empty(),
    }
}

/// The records that one pull brought in.
pub open spec fn pull_records<T, E>(pulled: Option<Result<T, E>>) -> Seq<T> {
    match pulled {
        Some(Ok(rec)) => seq![rec],
        _ => Seq::empty(),
    }
}

proof fn lemma_step_keeps_state_ok<T, E>(
    size: nat,
    buffer: Seq<T>,
    filling: bool,
    pulled: Option<Result<T, E>>,
    draw: nat,
)
    requires
        shuffle_state_ok(size, buffer, filling),
    ensures
        ({
            let (b, f, _s) = shuffle_step(size, buffer, filling, pulled, draw);
            shuffle_state_ok(size, b, f)
        }),
{
}

proof fn lemma_step_conserves<T, E>(
    size: nat,
    buffer: Seq<T>,
    filling: bool,
    pulled: Option<Result<T, E>>,
    draw: nat,
)
    ensures
        ({
            let (b, _f, s) = shuffle_step(size, buffer, filling, pulled, draw);
            step_records(s).to_multiset().add(b.to_multiset()) == buffer.to_multiset().add(
                pull_records(pulled).to_multiset(),
            )
        }),
{
    let (b, _f, s) = shuffle_step(size, buffer, filling, pulled, draw);
    assert(Seq::<T>::empty().to_multiset() =~= Multiset::empty()) by {
        assert(Seq::<T>::empty().to_multiset().len() == 0);
    }
    if size > 0 {
        match pulled {
            Some(Ok(rec)) => {
                let grown = buffer.push(rec);
                assert(seq![rec] =~= Seq::<T>::empty().push(rec));
                if !filling {
                    let i = (draw % grown.len()) as int;
                    lemma_mod_bound(draw as int, grown.len() as int);
                    lemma_swap_removed_multiset(grown, i);
                    assert(grown.to_multiset().count(grown[i]) > 0);
                }
            },
            None => {
                if buffer.len() > 0 {
                    let i = (draw % buffer.len()) as int;
                    lemma_mod_bound(draw as int, buffer.len() as int);
                    lemma_swap_removed_multiset(buffer, i);
                    assert(seq![buffer[i]] =~= Seq::<T>::empty().push(buffer[i]));
                    assert(buffer.to_multiset().count(buffer[i]) > 0);
                }
            },
            _ => {},
        }
    } else {
        match pulled {
            Some(Ok(rec)) => {
                assert(seq![rec] =~= Seq::<T>::empty().push(rec));
            },
            _ => {},
        }
    }
    assert(step_records(s).to_multiset().add(b.to_multiset()) =~= buffer.to_multiset().add(
        pull_records(pulled).to_multiset(),
    ));
}

proof fn lemma_run_keeps_state_ok<T, E>(
    size: nat,
    buffer: Seq<T>,
    filling: bool,
    pulls: Seq<Option<Result<T, E>>>,
    draws: Seq<nat>,
)
    requires
        shuffle_state_ok(size, buffer, filling),
    ensures
        ({
            let (b, f, _steps) = shuffle_run(size, buffer, filling, pulls, draws);
            shuffle_state_ok(size, b, f)
        }),
    decreases pulls.len(),
{
    if pulls.len() > 0 {
        lemma_run_keeps_state_ok(size, buffer, filling, pulls.drop_last(), draws);
        let (b, f, _steps) = shuffle_run(size, buffer, filling, pulls.drop_last(), draws);
        lemma_step_keeps_state_ok(size, b, f, pulls.last(), draws[pulls.len() - 1]);
    }
}

proof fn lemma_run_conserves<T, E>(
    size: nat,
    buffer: Seq<T>,
    filling: bool,
    pulls: Seq<Option<Result<T, E>>>,
    draws: Seq<nat>,
)
    ensures
        ({
            let (b, _f, steps) = shuffle_run(size, buffer, filling, pulls, draws);
            emitted_records(steps).to_multiset().add(b.to_multiset()) == buffer.to_multiset().add(
                pulled_records(pulls).to_multiset(),
            )
        }),
    decreases pulls.len(),
{
    let (b2, f2, steps2) = shuffle_run(size, buffer, filling, pulls, draws);
    if pulls.len() == 0 {
        assert(Seq::<T>::empty().to_multiset() =~= Multiset::empty()) by {
            assert(Seq::<T>::empty().to_multiset().len() == 0);
        }
        assert(emitted_records(steps2).to_multiset().add(b2.to_multiset()) =~= buffer.to_multiset().add(
            pulled_records(pulls).to_multiset(),
        ));
    } else {
        lemma_run_conserves(size, buffer, filling, pulls.drop_last(), draws);
        let (b, f, steps) = shuffle_run(size, buffer, filling, pulls.drop_last(), draws);
        let d = draws[pulls.len() - 1];
        lemma_step_conserves(size, b, f, pulls.last(), d);
        let (b3, _f3, s) = shuffle_step(size, b, f, pulls.last(), d);
        assert(b2 == b3);
        assert(steps2 =~= steps.push(s));
        assert(steps2.drop_last() =~= steps);
        assert(emitted_records(steps2) =~= emitted_records(steps) + step_records(s));
        assert(pulled_records(pulls) =~= pulled_records(pulls.drop_last()) + pull_records(pulls.last()));
        vstd::seq_lib::lemma_multiset_commutative(emitted_records(steps), step_records(s));
        vstd::seq_lib::lemma_multiset_commutative(pulled_records(pulls.drop_last()), pull_records(pulls.last()));
        let me = emitted_records(steps).to_multiset();
        let ms = step_records(s).to_multiset();
        let mp = pulled_records(pulls.drop_last()).to_multiset();
        let ml = pull_records(pulls.last()).to_multiset();
        assert(ms.add(b2.to_multiset()) == b.to_multiset().add(ml));
        assert(me.add(b.to_multiset()) == buffer.to_multiset().add(mp));
        assert forall|y: T|
            me.add(ms).add(b2.to_multiset()).count(y) == buffer.to_multiset().add(mp.add(ml)).count(
                y,
            ) by {
            assert(ms.add(b2.to_multiset()).count(y) == b.to_multiset().add(ml).count(y));
            assert(me.add(b.to_multiset()).count(y) == buffer.to_multiset().add(mp).count(y));
        }
        assert(me.add(ms).add(b2.to_multiset()) =~= buffer.to_multiset().add(mp.add(ml)));
        assert(emitted_records(steps2).to_multiset().add(b2.to_multiset()) =~= buffer.to_multiset().add(
            pulled_records(pulls).to_multiset(),
        ));
    }
}

/// However the draws fall, a shuffler of size at least one that starts
/// empty holds at most `size` records after any run of pulls.
pub proof fn lemma_shuffle_buffer_bounded<T, E>(
    size: nat,
    pulls: Seq<Option<Result<T, E>>>,
    draws: Seq<nat>,
)
    requires
        size >= 1,
    ensures
        shuffle_run(size, Seq::<T>::empty(), true, pulls, draws).0.len() <= size,
{
    lemma_run_keeps_state_ok(size, Seq::<T>::empty(), true, pulls, draws);
}

/// Shuffling neither drops nor duplicates: over any run of pulls, the
/// records emitted together with those still buffered are, as a multiset,
/// the records pulled.
pub proof fn lemma_shuffle_conserves_records<T, E>(
    size: nat,
    pulls: Seq<Option<Result<T, E>>>,
    draws: Seq<nat>,
)
    ensures
        ({
            let (b, _f, steps) = shuffle_run(size, Seq::<T>::empty(), true, pulls, draws);
            emitted_records(steps).to_multiset().add(b.to_multiset())
                == pulled_records(pulls).to_multiset()
        }),
{
    lemma_run_conserves(size, Seq::<T>::empty(), true, pulls, draws);
    assert(Seq::<T>::empty().to_multiset() =~= Multiset::empty()) by {
        assert(Seq::<T>::empty().to_multiset().len() == 0);
    }
    let (b, _f, steps) = shuffle_run(size, Seq::<T>::empty(), true, pulls, draws);
    assert(Multiset::<T>::empty().add(pulled_records(pulls).to_multiset()) =~= pulled_records(pulls).to_multiset());
}

/// The shuffle is reproducible: two runs over the same pulls, served with
/// the same drawn numbers, end in the same state and give the same
/// answers, whatever numbers lie beyond the pulls.
pub proof fn lemma_shuffle_run_reproducible<T, E>(
    size: nat,
    pulls: Seq<Option<Result<T, E>>>,
    draws_a: Seq<nat>,
    draws_b: Seq<nat>,
)
    requires
        forall|k: int| 0 <= k < pulls.len() ==> draws_a[k] == draws_b[k],
    ensures
        shuffle_run(size, Seq::<T>::empty(), true, pulls, draws_a) == shuffle_run(
            size,
            Seq::<T>::empty(),
            true,
            pulls,
            draws_b,
        ),
    decreases pulls.len(),
{
    if pulls.len() > 0 {
        lemma_shuffle_run_reproducible(size, pulls.drop_last(), draws_a, draws_b);
        assert(draws_a[pulls.len() - 1] == draws_b[pulls.len() - 1]);
    }
}

} // verus!
