//! Hands results on one by one, in block order, until one of them is refused;
//! the first refusal is what the whole delivery comes to.

use crate::collector::{
    arrives, collected, distinct, law_accepting_goes_on_where_it_stopped,
    law_results_come_out_in_block_order, Collector,
};
use std::collections::VecDeque;
use vstd::prelude::*;

verus! {

/// The index of the first failure among `answers`, or their number where
/// there is none.
pub open spec fn first_failure<E>(answers: Seq<Result<(), E>>) -> nat
    decreases answers.len(),
{
    if answers.len() == 0 || answers[0] is Err {
        0
    } else {
        1 + first_failure(answers.skip(1))
    }
}

/// What a row of answers comes to: its first failure, if it has one.
pub open spec fn outcome<E>(answers: Seq<Result<(), E>>) -> Result<(), E> {
    if first_failure(answers) < answers.len() {
        answers[first_failure(answers) as int]
    } else {
        Ok(())
    }
}

/// The first failure is the first.
pub proof fn lemma_first_failure<E>(answers: Seq<Result<(), E>>)
    ensures
        first_failure(answers) <= answers.len(),
        first_failure(answers) < answers.len() ==> answers[first_failure(answers) as int] is Err,
        forall|i: int| 0 <= i < first_failure(answers) ==> #[trigger] answers[i] is Ok,
    decreases answers.len(),
{
    if answers.len() > 0 && answers[0] is Ok {
        let rest = answers.skip(1);
        lemma_first_failure(rest);
        let k = first_failure(answers) as int;
        assert forall|i: int| 0 <= i < k implies #[trigger] answers[i] is Ok by {
            if i > 0 {
                assert(answers[i] == rest[i - 1]);
            }
        }
    }
}

/// A failure with nothing but successes before it is the first one.
proof fn lemma_first_failure_at<E>(answers: Seq<Result<(), E>>, k: int)
    requires
        0 <= k <= answers.len(),
        k < answers.len() ==> answers[k] is Err,
        forall|i: int| 0 <= i < k ==> #[trigger] answers[i] is Ok,
    ensures
        first_failure(answers) == k,
{
    lemma_first_failure(answers);
    let f = first_failure(answers) as int;
    if f < k {
        assert(answers[f] is Ok);
    } else if f > k {
        assert(answers[k] is Ok);
    }
}

/// Keeps the first error it is told of.
pub struct FirstError<E> {
    pub error: Option<E>,
}

impl<E> FirstError<E> {
    pub fn new() -> (f: FirstError<E>)
        ensures
            f.error is None,
    {
        FirstError { error: None }
    }

    /// Takes note of an error; a later one changes nothing.
    pub fn note(&mut self, e: E)
        ensures
            final(self).error == match old(self).error {
                None => Some(e),
                Some(first) => Some(first),
            },
    {
        if self.error.is_none() {
            self.error = Some(e);
        }
    }

    /// Whether there has been no error.
    pub fn is_clear(&self) -> (b: bool)
        ensures
            b == self.error is None,
    {
        self.error.is_none()
    }

    /// The first error, or success where there was none.
    pub fn into_result(self) -> (r: Result<(), E>)
        ensures
            r == match self.error {
                None => Ok(()),
                Some(e) => Err(e),
            },
    {
        match self.error {
            None => Ok(()),
            Some(e) => Err(e),
        }
    }
}

fn enqueue<R>(queue: &mut VecDeque<R>, items: Vec<R>)
    ensures
        final(queue)@ == old(queue)@ + items@,
{
    let ghost start = queue@;
    let ghost all = items@;
    assert(start + all.take(0) =~= start);
    for item in it: items
        invariant
            it.seq() == all,
            queue@ == start + all.take(it.index() as int),
    {
        queue.push_back(item);
        assert(queue@ =~= start + all.take(it.index() as int + 1));
    }
    assert(all.take(all.len() as int) =~= all);
}

/// Takes results in as they arrive and hands them on in block order, each
/// once the one before it was answered. After a failure results still come
/// in, so that nobody blocks on a full channel, but none is handed on.
pub struct Delivery<R, E> {
    collector: Collector<R>,
    /// Results that are next in line.
    ready: VecDeque<R>,
    first_error: FirstError<E>,
    /// Everything that has come in, in order of arrival.
    arrivals: Ghost<Seq<(usize, R)>>,
    /// Everything that was handed on, and the answers.
    handed: Ghost<Seq<R>>,
    answers: Ghost<Seq<Result<(), E>>>,
}

impl<R, E> Delivery<R, E> {
    /// Everything that has come in, block index and result, in order of
    /// arrival.
    pub closed spec fn arrivals(self) -> Seq<(usize, R)> {
        self.arrivals@
    }

    /// Everything that was handed on, in order.
    pub closed spec fn handed(self) -> Seq<R> {
        self.handed@
    }

    /// What was answered to it.
    pub closed spec fn answers(self) -> Seq<Result<(), E>> {
        self.answers@
    }

    /// Whether the last result handed on still lacks an answer.
    pub open spec fn asking(self) -> bool {
        self.handed().len() > self.answers().len()
    }

    /// Whether something was refused.
    pub open spec fn failed(self) -> bool {
        first_failure(self.answers()) < self.answers().len()
    }

    /// Whether there is nothing to hand on at the moment.
    pub open spec fn idle(self) -> bool {
        self.failed() || self.handed().len() == collected(self.arrivals()).0.len()
    }

    pub closed spec fn valid(self) -> bool {
        let (out, waiting) = collected(self.arrivals@);
        let n = self.answers@.len() as int;
        &&& self.collector.expected() == out.len()
        &&& self.collector.waiting() == waiting
        &&& !waiting.contains_key(usize::MAX)
        &&& n <= self.handed@.len() <= n + 1
        &&& self.handed@.len() <= out.len()
        &&& self.handed@ == out.take(self.handed@.len() as int)
        &&& self.first_error.error is None ==> self.ready@ == out.skip(self.handed@.len() as int)
        &&& match self.first_error.error {
            None => first_failure(self.answers@) == n,
            Some(e) => {
                &&& n > 0
                &&& self.handed@.len() == n
                &&& first_failure(self.answers@) == n - 1
                &&& self.answers@[n - 1] == Err::<(), E>(e)
            },
        }
    }

    pub fn new() -> (d: Delivery<R, E>)
        ensures
            d.valid(),
            d.arrivals() == Seq::<(usize, R)>::empty(),
            d.handed() == Seq::<R>::empty(),
            d.answers() == Seq::<Result<(), E>>::empty(),
    {
        let d = Delivery {
            collector: Collector::new(),
            ready: VecDeque::new(),
            first_error: FirstError::new(),
            arrivals: Ghost(Seq::empty()),
            handed: Ghost(Seq::empty()),
            answers: Ghost(Seq::empty()),
        };
        proof {
            let out = collected(d.arrivals@).0;
            assert(d.handed@ =~= out.take(0));
            assert(d.ready@ =~= out.skip(0));
        }
        d
    }

    /// Takes in the result of block `index`.
    pub fn arrive(&mut self, index: usize, result: R)
        requires
            old(self).valid(),
            index < usize::MAX,
        ensures
            final(self).valid(),
            final(self).arrivals() == old(self).arrivals().push((index, result)),
            final(self).handed() == old(self).handed(),
            final(self).answers() == old(self).answers(),
    {
        let ghost before = self.arrivals@;
        let ghost out = collected(before).0;
        let ghost after = before.push((index, result));
        proof {
            law_accepting_goes_on_where_it_stopped(before, index, result);
        }
        let next = self.collector.accept(index, result);
        self.arrivals = Ghost(after);
        let ghost handed = self.handed@.len() as int;
        let ghost queued = self.ready@;
        assert(collected(after).0 == out + next@);
        assert((out + next@).take(handed) =~= out.take(handed));
        if self.first_error.is_clear() {
            enqueue(&mut self.ready, next);
            assert((out + next@).skip(handed) =~= queued + next@);
        }
    }

    /// The next result to hand on, if there is one.
    pub fn next(&mut self) -> (r: Option<R>)
        requires
            old(self).valid(),
            !old(self).asking(),
        ensures
            final(self).valid(),
            final(self).arrivals() == old(self).arrivals(),
            final(self).answers() == old(self).answers(),
            r is None <==> old(self).idle(),
            match r {
                None => final(self).handed() == old(self).handed(),
                Some(result) => {
                    &&& final(self).handed() == old(self).handed().push(result)
                    &&& final(self).asking()
                },
            },
    {
        if !self.first_error.is_clear() {
            return None;
        }
        let ghost out = collected(self.arrivals@).0;
        let ghost handed = self.handed@;
        match self.ready.pop_front() {
            None => None,
            Some(result) => {
                self.handed = Ghost(handed.push(result));
                assert(self.handed@ =~= out.take(self.handed@.len() as int));
                assert(self.ready@ =~= out.skip(self.handed@.len() as int));
                Some(result)
            },
        }
    }

    /// Takes note of the answer to the result handed on last.
    pub fn answer(&mut self, answer: Result<(), E>)
        requires
            old(self).valid(),
            old(self).asking(),
        ensures
            final(self).valid(),
            final(self).arrivals() == old(self).arrivals(),
            final(self).handed() == old(self).handed(),
            final(self).answers() == old(self).answers().push(answer),
            !final(self).asking(),
    {
        let ghost before = self.answers@;
        let ghost after = before.push(answer);
        proof {
            lemma_first_failure(before);
            let n = before.len() as int;
            assert forall|i: int| 0 <= i < n implies #[trigger] after[i] is Ok by {
                assert(before[i] is Ok);
            }
            if answer is Err {
                lemma_first_failure_at(after, n);
            } else {
                lemma_first_failure_at(after, n + 1);
            }
        }
        self.answers = Ghost(after);
        if let Err(e) = answer {
            self.first_error.note(e);
            self.ready.clear();
        }
    }

    /// Whether every result that came in has had its turn.
    pub fn is_drained(&self) -> (b: bool)
        requires
            self.valid(),
        ensures
            b == collected(self.arrivals()).1.is_empty(),
    {
        self.collector.is_drained()
    }

    /// What the delivery comes to: the first failure, if there was one.
    pub fn into_result(self) -> (r: Result<(), E>)
        requires
            self.valid(),
        ensures
            r == outcome(self.answers()),
    {
        self.first_error.into_result()
    }
}

/// What is handed on is always the first results, in block order; every
/// answer but the last was a success; and nothing is handed on after a
/// failure.
pub proof fn law_delivery_stops_at_the_first_failure<R, E>(d: Delivery<R, E>)
    requires
        d.valid(),
    ensures
        d.handed().len() <= collected(d.arrivals()).0.len(),
        d.handed() == collected(d.arrivals()).0.take(d.handed().len() as int),
        d.answers().len() <= d.handed().len() <= d.answers().len() + 1,
        forall|i: int| 0 <= i < d.answers().len() - 1 ==> #[trigger] d.answers()[i] is Ok,
        d.failed() ==> d.handed().len() == d.answers().len() && first_failure(d.answers()) + 1
            == d.answers().len(),
{
    lemma_first_failure(d.answers());
}

/// Whether `results` holds the result of each block, at its index, of
/// `arrivals` in any order.
pub open spec fn arrivals_of<R>(arrivals: Seq<(usize, R)>, results: Seq<R>) -> bool {
    &&& arrivals.len() == results.len()
    &&& distinct(arrivals)
    &&& forall|i: int|
        0 <= i < arrivals.len() ==> (#[trigger] arrivals[i]).0 < results.len() && arrivals[i].1
            == results[arrivals[i].0 as int]
    &&& forall|k: int| 0 <= k < arrivals.len() ==> #[trigger] arrives(arrivals, k)
}

/// A delivery of the results of every block, to someone who answers
/// `verdicts[i]` to that of block `i`. Where no verdict is a failure, every
/// result is handed on, in block order, and it comes to success. Where the
/// first failure is that of block `k`, the results of blocks 0 to `k` are
/// handed on, in order and none after them, and it comes to that very
/// failure.
pub proof fn law_first_failure_ends_the_delivery<R, E>(
    d: Delivery<R, E>,
    results: Seq<R>,
    verdicts: Seq<Result<(), E>>,
)
    requires
        d.valid(),
        d.idle(),
        !d.asking(),
        results.len() < usize::MAX,
        arrivals_of(d.arrivals(), results),
        verdicts.len() == results.len(),
        d.answers() == verdicts.take(d.answers().len() as int),
    ensures
        first_failure(verdicts) == verdicts.len() ==> d.handed() == results,
        first_failure(verdicts) < verdicts.len() ==> d.handed() == results.take(
            first_failure(verdicts) as int + 1,
        ),
        outcome(d.answers()) == outcome(verdicts),
        outcome(d.answers()) is Err <==> first_failure(verdicts) < verdicts.len(),
{
    let arrivals = d.arrivals();
    let out = collected(arrivals).0;
    let answers = d.answers();
    let n = answers.len() as int;
    law_results_come_out_in_block_order(arrivals);
    assert forall|k: int| 0 <= k < results.len() implies out[k] == results[k] by {
        assert(arrives(arrivals, k));
        let i = choose|i: int| 0 <= i < arrivals.len() && (#[trigger] arrivals[i]).0 == k;
        assert(out[arrivals[i].0 as int] == arrivals[i].1);
    }
    assert(out =~= results);
    law_delivery_stops_at_the_first_failure(d);
    lemma_first_failure(answers);
    lemma_first_failure(verdicts);
    let f = first_failure(answers) as int;
    if d.failed() {
        assert forall|i: int| 0 <= i < f implies #[trigger] verdicts[i] is Ok by {
            assert(answers[i] is Ok);
        }
        assert(verdicts[f] == answers[f]);
        lemma_first_failure_at(verdicts, f);
    } else {
        assert(d.handed() =~= results);
        assert(answers =~= verdicts);
    }
}

} // verus!
