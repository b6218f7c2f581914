//! Counting over lists of jobs: how many hold a handle open, and which
//! callbacks wait for them.

use vstd::multiset::Multiset;
use vstd::prelude::*;

use crate::job::Job;

verus! {

/// How many of `jobs` work on the handle `h`.
pub open spec fn uses<'a, C>(jobs: Seq<Job<'a, C>>, h: u64) -> nat
    decreases jobs.len(),
{
    if jobs.len() == 0 {
        0
    } else {
        uses(jobs.drop_last(), h) + if jobs.last().kind@.handle() == Some(h) {
            1nat
        } else {
            0nat
        }
    }
}

/// The callbacks that wait for `jobs`.
pub open spec fn callbacks<'a, C>(jobs: Seq<Job<'a, C>>) -> Multiset<C>
    decreases jobs.len(),
{
    if jobs.len() == 0 {
        Multiset::empty()
    } else {
        callbacks(jobs.drop_last()).insert(jobs.last().cb)
    }
}

/// The job in `slot` as a list.
pub open spec fn in_slot<'a, C>(slot: Option<Job<'a, C>>) -> Seq<Job<'a, C>> {
    match slot {
        Some(job) => seq![job],
        None => Seq::empty(),
    }
}

/// Both tallies of one job.
pub proof fn lemma_single<'a, C>(job: Job<'a, C>)
    ensures
        forall|h: u64|
            #[trigger] uses(seq![job], h) == if job.kind@.handle() == Some(h) {
                1nat
            } else {
                0nat
            },
        callbacks(seq![job]) == Multiset::singleton(job.cb),
{
    let s = seq![job];
    assert(s.drop_last() =~= Seq::<Job<'a, C>>::empty());
    assert forall|h: u64|
        #[trigger] uses(seq![job], h) == if job.kind@.handle() == Some(h) {
            1nat
        } else {
            0nat
        } by {
        assert(uses(s.drop_last(), h) == 0);
    }
    assert(callbacks(s.drop_last()) == Multiset::<C>::empty());
    assert(callbacks(s) =~= Multiset::singleton(job.cb));
}

/// Both tallies add up over two lists put together.
pub proof fn lemma_concat<'a, C>(a: Seq<Job<'a, C>>, b: Seq<Job<'a, C>>)
    ensures
        forall|h: u64| #[trigger] uses(a + b, h) == uses(a, h) + uses(b, h),
        callbacks(a + b) == callbacks(a).add(callbacks(b)),
    decreases b.len(),
{
    if b.len() == 0 {
        assert(a + b =~= a);
        assert(callbacks(a + b) =~= callbacks(a).add(callbacks(b)));
    } else {
        lemma_concat(a, b.drop_last());
        assert((a + b).drop_last() =~= a + b.drop_last());
        assert((a + b).last() == b.last());
        assert forall|h: u64| #[trigger] uses(a + b, h) == uses(a, h) + uses(b, h) by {
            assert(uses(a + b.drop_last(), h) == uses(a, h) + uses(b.drop_last(), h));
        }
        assert(callbacks(a + b) =~= callbacks(a).add(callbacks(b)));
    }
}

/// A job pushed at the back counts once.
pub proof fn lemma_push<'a, C>(jobs: Seq<Job<'a, C>>, job: Job<'a, C>)
    ensures
        forall|h: u64|
            #[trigger] uses(jobs.push(job), h) == uses(jobs, h) + if job.kind@.handle() == Some(h) {
                1nat
            } else {
                0nat
            },
        callbacks(jobs.push(job)) == callbacks(jobs).insert(job.cb),
{
    assert(jobs.push(job).drop_last() =~= jobs);
}

/// A job pushed at the front counts once.
pub proof fn lemma_push_front<'a, C>(jobs: Seq<Job<'a, C>>, job: Job<'a, C>)
    ensures
        forall|h: u64|
            #[trigger] uses(seq![job] + jobs, h) == uses(jobs, h) + if job.kind@.handle() == Some(
                h,
            ) {
                1nat
            } else {
                0nat
            },
        callbacks(seq![job] + jobs) == callbacks(jobs).insert(job.cb),
{
    lemma_single(job);
    lemma_concat(seq![job], jobs);
    assert forall|h: u64|
        #[trigger] uses(seq![job] + jobs, h) == uses(jobs, h) + if job.kind@.handle() == Some(h) {
            1nat
        } else {
            0nat
        } by {
        assert(uses(seq![job], h) == if job.kind@.handle() == Some(h) {
            1nat
        } else {
            0nat
        });
    }
    assert(callbacks(seq![job] + jobs) =~= callbacks(jobs).insert(job.cb));
}

/// A job taken out at `i` counted once.
pub proof fn lemma_remove<'a, C>(jobs: Seq<Job<'a, C>>, i: int)
    requires
        0 <= i < jobs.len(),
    ensures
        forall|h: u64|
            #[trigger] uses(jobs, h) == uses(jobs.remove(i), h) + if jobs[i].kind@.handle() == Some(
                h,
            ) {
                1nat
            } else {
                0nat
            },
        callbacks(jobs) == callbacks(jobs.remove(i)).insert(jobs[i].cb),
{
    let before = jobs.subrange(0, i);
    let after = jobs.subrange(i + 1, jobs.len() as int);
    assert(jobs =~= before + (seq![jobs[i]] + after));
    assert(jobs.remove(i) =~= before + after);
    lemma_push_front(after, jobs[i]);
    lemma_concat(before, seq![jobs[i]] + after);
    lemma_concat(before, after);
    assert forall|h: u64|
        #[trigger] uses(jobs, h) == uses(jobs.remove(i), h) + if jobs[i].kind@.handle() == Some(h) {
            1nat
        } else {
            0nat
        } by {
        assert(uses(before + (seq![jobs[i]] + after), h) == uses(before, h) + uses(
            seq![jobs[i]] + after,
            h,
        ));
        assert(uses(before + after, h) == uses(before, h) + uses(after, h));
    }
    assert(callbacks(jobs) =~= callbacks(jobs.remove(i)).insert(jobs[i].cb));
}

/// A job taken out at `i` with the last one moved into its place counted once.
pub proof fn lemma_swap_remove<'a, C>(jobs: Seq<Job<'a, C>>, i: int)
    requires
        0 <= i < jobs.len(),
    ensures
        forall|h: u64|
            #[trigger] uses(jobs, h) == uses(jobs.update(i, jobs.last()).drop_last(), h)
                + if jobs[i].kind@.handle() == Some(h) {
                1nat
            } else {
                0nat
            },
        callbacks(jobs) == callbacks(jobs.update(i, jobs.last()).drop_last()).insert(jobs[i].cb),
{
    let rest = jobs.update(i, jobs.last()).drop_last();
    lemma_remove(jobs, i);
    if i == jobs.len() - 1 {
        assert(rest =~= jobs.remove(i));
    } else {
        let last = jobs.len() - 2;
        assert(rest.remove(i) =~= jobs.remove(i).remove(last));
        assert(rest[i] == jobs.remove(i)[last]);
        lemma_remove(rest, i);
        lemma_remove(jobs.remove(i), last);
        assert forall|h: u64|
            #[trigger] uses(jobs, h) == uses(rest, h) + if jobs[i].kind@.handle() == Some(h) {
                1nat
            } else {
                0nat
            } by {
            assert(uses(jobs.remove(i), h) == uses(rest, h));
        }
    }
}

/// A job replaced by one on the same handle with the same callback changes
/// neither tally.
pub proof fn lemma_update<'a, C>(jobs: Seq<Job<'a, C>>, i: int, job: Job<'a, C>)
    requires
        0 <= i < jobs.len(),
        job.kind@.handle() == jobs[i].kind@.handle(),
        job.cb == jobs[i].cb,
    ensures
        forall|h: u64| #[trigger] uses(jobs.update(i, job), h) == uses(jobs, h),
        callbacks(jobs.update(i, job)) == callbacks(jobs),
{
    lemma_remove(jobs, i);
    lemma_remove(jobs.update(i, job), i);
    assert(jobs.update(i, job).remove(i) =~= jobs.remove(i));
    assert forall|h: u64| #[trigger] uses(jobs.update(i, job), h) == uses(jobs, h) by {
        assert(uses(jobs, h) == uses(jobs.remove(i), h) + if jobs[i].kind@.handle() == Some(h) {
            1nat
        } else {
            0nat
        });
    }
}

/// A handle that no job works on has no uses.
pub proof fn lemma_unused<'a, C>(jobs: Seq<Job<'a, C>>, h: u64)
    requires
        forall|i: int| 0 <= i < jobs.len() ==> (#[trigger] jobs[i]).kind@.handle() != Some(h),
    ensures
        uses(jobs, h) == 0,
    decreases jobs.len(),
{
    if jobs.len() > 0 {
        assert forall|i: int| 0 <= i < jobs.drop_last().len() implies (
        #[trigger] jobs.drop_last()[i]).kind@.handle() != Some(h) by {
            assert(jobs.drop_last()[i] == jobs[i]);
        }
        lemma_unused(jobs.drop_last(), h);
    }
}

/// No more jobs use a handle than there are, and a job on the handle counts.
pub proof fn lemma_bounds<'a, C>(jobs: Seq<Job<'a, C>>, h: u64)
    ensures
        uses(jobs, h) <= jobs.len(),
        (exists|i: int| 0 <= i < jobs.len() && #[trigger] jobs[i].kind@.handle() == Some(h)) ==> uses(
            jobs,
            h,
        ) > 0,
    decreases jobs.len(),
{
    if jobs.len() > 0 {
        lemma_bounds(jobs.drop_last(), h);
        if exists|i: int| 0 <= i < jobs.len() && #[trigger] jobs[i].kind@.handle() == Some(h) {
            let i = choose|i: int| 0 <= i < jobs.len() && #[trigger] jobs[i].kind@.handle() == Some(h);
            if i < jobs.len() - 1 {
                assert(jobs.drop_last()[i].kind@.handle() == Some(h));
            }
        }
    }
}

} // verus!
