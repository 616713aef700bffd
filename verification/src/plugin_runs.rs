use vstd::prelude::*;
use crate::interfaces::NextAction;

verus! {

/// The positions `start..end`, in increasing order.
pub open spec fn index_range(start: int, end: int) -> Seq<int> {
    Seq::new((end - start) as nat, |k: int| start + k)
}

/// The plugin positions a range names in a list of `len` plugins: none
/// when there is no range or it does not lie within the list.
pub open spec fn planned(range: Option<(usize, usize)>, len: int) -> Seq<int> {
    match range {
        Some((a, b)) => if a < b && b <= len { index_range(a as int, b as int) } else { Seq::empty() },
        None => Seq::empty(),
    }
}

/// `calls` records the plugins of `plan` run one after the other, each
/// with its answer: they are a prefix of `plan`, every one but the last
/// answered `Continue`, the run stops early only at an answer other than
/// `Continue`, and `r` is the last answer (`Continue` when none ran).
pub open spec fn runs_in_order(plan: Seq<int>, calls: Seq<(int, NextAction)>, r: NextAction) -> bool {
    &&& calls.len() <= plan.len()
    &&& forall|k: int| 0 <= k < calls.len() ==> (#[trigger] calls[k]).0 == plan[k]
    &&& forall|k: int| 0 <= k < calls.len() - 1 ==> (#[trigger] calls[k]).1 == NextAction::Continue
    &&& r == (if calls.len() == 0 { NextAction::Continue } else { calls.last().1 })
    &&& calls.len() < plan.len() ==> r != NextAction::Continue
}

/// The calls appended after the first `n` are a run of `start..end` when
/// they name `start`, `start + 1`, ... in turn, every one but the last
/// answered `Continue`, the last answered `r`, and the run falls short of
/// `end` only if `r` is not `Continue`.
pub proof fn lemma_appended_run(calls: Seq<(int, NextAction)>, n: int, start: int, end: int, r: NextAction)
    requires
        0 <= n <= calls.len(),
        start <= end,
        calls.len() - n <= end - start,
        forall|k: int| 0 <= k < calls.len() - n - 1 ==> #[trigger] calls[n + k] == (start + k, NextAction::Continue),
        calls.len() > n ==> calls.last() == (start + (calls.len() - n - 1), r),
        calls.len() == n ==> r == NextAction::Continue,
        r == NextAction::Continue ==> calls.len() - n == end - start,
    ensures
        runs_in_order(index_range(start, end), calls.skip(n), r),
{
    let tail = calls.skip(n);
    assert forall|k: int| 0 <= k < tail.len() implies (#[trigger] tail[k]).0 == index_range(start, end)[k] by {
        assert(tail[k] == calls[n + k]);
    }
    assert forall|k: int| 0 <= k < tail.len() - 1 implies (#[trigger] tail[k]).1 == NextAction::Continue by {
        assert(tail[k] == calls[n + k]);
    }
    if tail.len() > 0 {
        assert(tail.last() == calls.last());
    }
}

/// A run of `a` that ended in `Continue`, then a run of `b`, is a run of
/// `a` followed by `b`.
pub proof fn lemma_runs_concat(a: Seq<int>, b: Seq<int>, ca: Seq<(int, NextAction)>, cb: Seq<(int, NextAction)>, r: NextAction)
    requires
        runs_in_order(a, ca, NextAction::Continue),
        runs_in_order(b, cb, r),
    ensures
        runs_in_order(a + b, ca + cb, r),
{
    assert(ca.len() == a.len());
    if ca.len() > 0 {
        assert(ca[ca.len() - 1].1 == NextAction::Continue);
    }
    let c = ca + cb;
    assert forall|k: int| 0 <= k < c.len() implies (#[trigger] c[k]).0 == (a + b)[k] by {
        if k < ca.len() {
            assert(c[k] == ca[k]);
        } else {
            assert(c[k] == cb[k - ca.len()]);
        }
    }
    assert forall|k: int| 0 <= k < c.len() - 1 implies (#[trigger] c[k]).1 == NextAction::Continue by {
        if k < ca.len() {
            assert(c[k] == ca[k]);
        } else {
            assert(c[k] == cb[k - ca.len()]);
        }
    }
    if cb.len() > 0 {
        assert(c.last() == cb.last());
    }
}

/// A run of `a` that stopped on an answer other than `Continue` is a run
/// of `a` followed by anything.
pub broadcast proof fn lemma_runs_stopped(a: Seq<int>, b: Seq<int>, ca: Seq<(int, NextAction)>, r: NextAction)
    requires
        runs_in_order(a, ca, r),
        r != NextAction::Continue,
    ensures
        #[trigger] runs_in_order(a + b, ca, r),
{
    assert forall|k: int| 0 <= k < ca.len() implies (#[trigger] ca[k]).0 == (a + b)[k] by {
        assert((a + b)[k] == a[k]);
    }
}

/// A run that ended in `Continue` ran every plugin of its plan, in the
/// planned order, and each of them answered `Continue`.
pub proof fn lemma_run_completes(plan: Seq<int>, calls: Seq<(int, NextAction)>)
    requires
        runs_in_order(plan, calls, NextAction::Continue),
    ensures
        calls.len() == plan.len(),
        forall|k: int| 0 <= k < calls.len() ==> (#[trigger] calls[k]) == (plan[k], NextAction::Continue),
{
    assert forall|k: int| 0 <= k < calls.len() implies (#[trigger] calls[k]) == (plan[k], NextAction::Continue) by {
        if k == calls.len() - 1 {
            assert(calls.last() == calls[k]);
        }
    }
}

/// Plugins of two groups run as one queue: when every plugin of the first
/// group that ran answered `Continue`, the whole first group ran and the
/// second group was started at its first plugin, so each plugin of `b`
/// runs unless an earlier plugin of `b` stopped the run.
pub proof fn lemma_second_group_runs(a: Seq<int>, b: Seq<int>, calls: Seq<(int, NextAction)>, r: NextAction)
    requires
        runs_in_order(a + b, calls, r),
        forall|k: int| 0 <= k < a.len() && k < calls.len() ==> (#[trigger] calls[k]).1 == NextAction::Continue,
    ensures
        calls.len() >= a.len(),
        forall|j: int| 0 <= j < b.len() && (forall|k: int| a.len() <= k < a.len() + j ==> (#[trigger] calls[k]).1 == NextAction::Continue)
            ==> calls.len() > a.len() + j && #[trigger] calls[a.len() + j].0 == b[j],
{
    if calls.len() < a.len() {
        assert(calls.len() > 0);
        assert(calls[calls.len() - 1].1 == NextAction::Continue);
        assert(false);
    }
    assert forall|j: int| 0 <= j < b.len() && (forall|k: int| a.len() <= k < a.len() + j ==> (#[trigger] calls[k]).1 == NextAction::Continue)
        implies calls.len() > a.len() + j && #[trigger] calls[a.len() + j].0 == b[j] by {
        if calls.len() <= a.len() + j {
            if calls.len() > 0 {
                let l = calls.len() - 1;
                if l < a.len() {
                    assert(calls[l].1 == NextAction::Continue);
                } else {
                    assert(calls[l].1 == NextAction::Continue);
                }
            }
            assert(false);
        }
        assert((a + b)[a.len() + j] == b[j]);
    }
}

} // verus!
