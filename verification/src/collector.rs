//! Puts the results of blocks that were decoded in parallel back into the
//! order in which the blocks were submitted.

use std::collections::HashMap;
use vstd::prelude::*;
use vstd::std_specs::hash::*;

verus! {

/// What is next in line of `pending`, in order, from index `next` on.
pub open spec fn run_from<R>(pending: Map<usize, R>, next: int) -> Seq<R>
    decreases usize::MAX - next,
{
    if 0 <= next < usize::MAX && pending.contains_key(next as usize) {
        seq![pending[next as usize]] + run_from(pending, next + 1)
    } else {
        Seq::empty()
    }
}

/// `pending` without the indices from `from` up to `to`.
pub open spec fn without_range<R>(pending: Map<usize, R>, from: int, to: int) -> Map<usize, R> {
    pending.remove_keys(Set::new(|k: usize| from <= k < to))
}

/// Results that have arrived and are not next in line yet.
pub struct Collector<R> {
    pending: HashMap<usize, R>,
    next_expected: usize,
}

impl<R> Collector<R> {
    /// The results waiting, by block index.
    pub closed spec fn waiting(self) -> Map<usize, R> {
        self.pending@
    }

    /// The index of the block whose result comes out next.
    pub closed spec fn expected(self) -> int {
        self.next_expected as int
    }

    pub fn new() -> (c: Collector<R>)
        ensures
            c.waiting() == Map::<usize, R>::empty(),
            c.expected() == 0,
    {
        Collector { pending: HashMap::new(), next_expected: 0 }
    }

    /// Takes in the result of block `index` and hands out every result that
    /// is now next in line, in order.
    pub fn accept(&mut self, index: usize, result: R) -> (ready: Vec<R>)
        requires
            index < usize::MAX,
            !old(self).waiting().contains_key(usize::MAX),
        ensures
            ready@ == run_from(
                old(self).waiting().insert(index, result),
                old(self).expected(),
            ),
            final(self).expected() == old(self).expected() + ready@.len(),
            final(self).waiting() == without_range(
                old(self).waiting().insert(index, result),
                old(self).expected(),
                old(self).expected() + ready@.len(),
            ),
            !final(self).waiting().contains_key(usize::MAX),
    {
        broadcast use group_hash_axioms;

        let ghost first = self.next_expected as int;
        self.pending.insert(index, result);
        let ghost all = self.pending@;
        let mut ready: Vec<R> = Vec::new();
        assert(self.pending@ =~= without_range(all, first, first));
        assert(ready@ + run_from(all, first) =~= run_from(all, first));
        loop
            invariant
                !all.contains_key(usize::MAX),
                self.next_expected == first + ready@.len(),
                self.pending@ == without_range(all, first, self.next_expected as int),
                run_from(all, first) == ready@ + run_from(all, self.next_expected as int),
            ensures
                self.next_expected == first + ready@.len(),
                self.pending@ == without_range(all, first, self.next_expected as int),
                run_from(all, first) == ready@,
            decreases usize::MAX - self.next_expected,
        {
            let next = self.next_expected;
            let ghost before = self.pending@;
            match self.pending.remove(&next) {
                Some(r) => {
                    let ghost so_far = ready@;
                    assert(all.contains_key(next) && r == all[next]);
                    ready.push(r);
                    self.next_expected = next + 1;
                    assert(self.pending@ =~= without_range(all, first, next + 1));
                    assert(so_far + (seq![r] + run_from(all, next + 1)) =~= ready@ + run_from(
                        all,
                        next + 1,
                    ));
                },
                None => {
                    assert(self.pending@ =~= before);
                    assert(!all.contains_key(next));
                    assert(ready@ + Seq::<R>::empty() =~= ready@);
                    break;
                },
            }
        }
        ready
    }

    /// Whether every result that came in has gone out.
    pub fn is_drained(&self) -> (b: bool)
        ensures
            b == self.waiting().is_empty(),
    {
        self.pending.is_empty()
    }
}

/// What a run is: the results at consecutive indices, up to the first one
/// that is missing.
proof fn lemma_run_from<R>(pending: Map<usize, R>, next: int)
    requires
        0 <= next <= usize::MAX,
        !pending.contains_key(usize::MAX),
    ensures
        next + run_from(pending, next).len() <= usize::MAX,
        forall|j: int|
            next <= j < next + run_from(pending, next).len() ==> pending.contains_key(
                #[trigger] (j as usize),
            ) && run_from(pending, next)[j - next] == pending[j as usize],
        !pending.contains_key((next + run_from(pending, next).len()) as usize),
    decreases usize::MAX - next,
{
    if next < usize::MAX && pending.contains_key(next as usize) {
        lemma_run_from(pending, next + 1);
        let rest = run_from(pending, next + 1);
        let run = run_from(pending, next);
        assert forall|j: int| next <= j < next + run.len() implies pending.contains_key(
            #[trigger] (j as usize),
        ) && run[j - next] == pending[j as usize] by {
            if j > next {
                assert(run[j - next] == rest[j - (next + 1)]);
            }
        }
    }
}

/// Everything that has come out, and what is still waiting, once `arrivals`
/// (block index and result) have come in one after the other.
pub open spec fn collected<R>(arrivals: Seq<(usize, R)>) -> (Seq<R>, Map<usize, R>)
    decreases arrivals.len(),
{
    if arrivals.len() == 0 {
        (Seq::empty(), Map::empty())
    } else {
        let (out, waiting) = collected(arrivals.drop_last());
        let all = waiting.insert(arrivals.last().0, arrivals.last().1);
        let ready = run_from(all, out.len() as int);
        (out + ready, without_range(all, out.len() as int, (out.len() + ready.len()) as int))
    }
}

/// No index arrives twice.
pub open spec fn distinct<R>(arrivals: Seq<(usize, R)>) -> bool {
    forall|i: int, j: int|
        0 <= i < j < arrivals.len() ==> #[trigger] arrivals[i].0 != #[trigger] arrivals[j].0
}

/// Whether block `k` is among the arrivals.
pub open spec fn arrives<R>(arrivals: Seq<(usize, R)>, k: int) -> bool {
    exists|i: int| 0 <= i < arrivals.len() && (#[trigger] arrivals[i]).0 == k
}

/// What has come out is the results of the first blocks, each at its block's
/// place; the results of later blocks wait; and there is nothing else.
pub proof fn law_results_are_out_in_order_or_waiting<R>(arrivals: Seq<(usize, R)>)
    requires
        distinct(arrivals),
        forall|i: int| 0 <= i < arrivals.len() ==> #[trigger] arrivals[i].0 < usize::MAX,
    ensures
        ({
            let (out, waiting) = collected(arrivals);
            &&& out.len() <= usize::MAX
            &&& !waiting.contains_key(usize::MAX)
            &&& !waiting.contains_key(out.len() as usize)
            &&& forall|i: int|
                0 <= i < arrivals.len() ==> {
                    let (index, result) = #[trigger] arrivals[i];
                    if index < out.len() {
                        out[index as int] == result
                    } else {
                        waiting.contains_key(index) && waiting[index] == result
                    }
                }
            &&& forall|k: usize|
                #[trigger] waiting.contains_key(k) ==> k >= out.len() && arrives(arrivals, k as int)
            &&& forall|k: int| 0 <= k < out.len() ==> #[trigger] arrives(arrivals, k)
        }),
    decreases arrivals.len(),
{
    if arrivals.len() > 0 {
        let earlier = arrivals.drop_last();
        let n = earlier.len() as int;
        assert forall|i: int, j: int| 0 <= i < j < earlier.len() implies #[trigger] earlier[i].0
            != #[trigger] earlier[j].0 by {
            assert(arrivals[i].0 != arrivals[j].0);
        }
        assert forall|i: int| 0 <= i < earlier.len() implies #[trigger] earlier[i].0
            < usize::MAX by {
            assert(arrivals[i].0 < usize::MAX);
        }
        law_results_are_out_in_order_or_waiting(earlier);
        let (out, waiting) = collected(earlier);
        let (index, result) = arrivals.last();
        assert(arrivals[n] == (index, result));
        let all = waiting.insert(index, result);
        let start = out.len() as int;
        let ready = run_from(all, start);
        lemma_run_from(all, start);
        let (out2, waiting2) = collected(arrivals);
        let end = out2.len() as int;
        assert(out2 == out + ready);
        assert(waiting2 == without_range(all, start, end));
        // The newcomer is at or past the front of the line.
        if index < start {
            let k = index as int;
            assert(arrives(earlier, k));
            let i = choose|i: int| 0 <= i < earlier.len() && (#[trigger] earlier[i]).0 == k;
            assert(arrivals[i] == earlier[i]);
            assert(arrivals[i].0 != arrivals[n].0);
        }
        assert forall|i: int| 0 <= i < arrivals.len() implies {
            let (x, r) = #[trigger] arrivals[i];
            if x < out2.len() {
                out2[x as int] == r
            } else {
                waiting2.contains_key(x) && waiting2[x] == r
            }
        } by {
            let (x, r) = arrivals[i];
            if i < n {
                assert(earlier[i] == arrivals[i]);
                assert(arrivals[i].0 != arrivals[n].0);
            }
            if x >= start {
                assert(all.contains_key(x) && all[x] == r);
                if x < end {
                    let j = x as int;
                    assert(all.contains_key(j as usize) && ready[j - start] == all[j as usize]);
                    assert(out2[j] == ready[j - start]);
                }
            }
        }
        assert forall|k: usize| #[trigger] waiting2.contains_key(k) implies k >= out2.len()
            && arrives(arrivals, k as int) by {
            assert(all.contains_key(k));
            if k == index {
                assert(arrivals[n].0 == k);
            } else {
                assert(waiting.contains_key(k));
                let i = choose|i: int| 0 <= i < earlier.len() && (#[trigger] earlier[i]).0 == k;
                assert(arrivals[i] == earlier[i]);
            }
        }
        assert forall|k: int| 0 <= k < out2.len() implies #[trigger] arrives(arrivals, k) by {
            if k < start {
                assert(arrives(earlier, k));
                let i = choose|i: int| 0 <= i < earlier.len() && (#[trigger] earlier[i]).0 == k;
                assert(arrivals[i] == earlier[i]);
            } else {
                let key = k as usize;
                assert(all.contains_key(k as usize));
                if key == index {
                    assert(arrivals[n].0 == k);
                } else {
                    assert(waiting.contains_key(key));
                    let i = choose|i: int|
                        0 <= i < earlier.len() && (#[trigger] earlier[i]).0 == key;
                    assert(arrivals[i] == earlier[i]);
                }
            }
        }
    }
}

/// One more arrival brings out what `accept` hands out, behind all that came
/// out before.
pub proof fn law_accepting_goes_on_where_it_stopped<R>(
    arrivals: Seq<(usize, R)>,
    index: usize,
    result: R,
)
    ensures
        ({
            let (out, waiting) = collected(arrivals);
            let all = waiting.insert(index, result);
            let ready = run_from(all, out.len() as int);
            &&& collected(arrivals.push((index, result))).0 == out + ready
            &&& collected(arrivals.push((index, result))).1 == without_range(
                all,
                out.len() as int,
                (out.len() + ready.len()) as int,
            )
        }),
{
    assert(arrivals.push((index, result)).drop_last() =~= arrivals);
}

/// Whatever order the results of blocks `0..n` arrive in, they come out in
/// block order, each exactly once, and nothing is left waiting.
pub proof fn law_results_come_out_in_block_order<R>(arrivals: Seq<(usize, R)>)
    requires
        arrivals.len() < usize::MAX,
        distinct(arrivals),
        forall|i: int| 0 <= i < arrivals.len() ==> #[trigger] arrivals[i].0 < arrivals.len(),
        forall|k: int| 0 <= k < arrivals.len() ==> #[trigger] arrives(arrivals, k),
    ensures
        collected(arrivals).0.len() == arrivals.len(),
        collected(arrivals).1 == Map::<usize, R>::empty(),
        forall|i: int|
            0 <= i < arrivals.len() ==> collected(arrivals).0[(#[trigger] arrivals[i]).0 as int]
                == arrivals[i].1,
{
    law_results_are_out_in_order_or_waiting(arrivals);
    let (out, waiting) = collected(arrivals);
    let n = arrivals.len() as int;
    if out.len() < n {
        let k = out.len() as int;
        assert(arrives(arrivals, k));
        let i = choose|i: int| 0 <= i < arrivals.len() && (#[trigger] arrivals[i]).0 == k;
        assert(waiting.contains_key(arrivals[i].0));
    }
    if out.len() > n {
        assert(arrives(arrivals, n));
        let i = choose|i: int| 0 <= i < arrivals.len() && (#[trigger] arrivals[i]).0 == n;
        assert(arrivals[i].0 < n);
    }
    assert forall|k: usize| !waiting.contains_key(k) by {
        if waiting.contains_key(k) {
            let i = choose|i: int| 0 <= i < arrivals.len() && (#[trigger] arrivals[i]).0 == k;
            assert(arrivals[i].0 < n);
        }
    }
    assert(waiting =~= Map::<usize, R>::empty());
}

} // verus!
