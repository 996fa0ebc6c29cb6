//! The race combinator: a fixed set of single-value operations driven
//! concurrently, resolving to the value of whichever completes first.
//!
//! One drive step visits the participants in declaration order and
//! short-circuits on the first that completes; ties between participants that
//! are ready in the same step are broken deterministically in favour of the
//! earlier declared one.  The combinator is single-shot: once it has produced
//! its value, driving it again is a fatal usage error, ruled out here by the
//! precondition of [`Race::poll_step`].

use vstd::prelude::*;

use crate::op::{ready_now, future_after_drive, future_taken, FutureModel, FuturePoll,
    ScriptedFuture};

verus! {

/// Some participant will complete eventually.
pub open spec fn some_participant_completes<T>(ops: Seq<FutureModel<T>>) -> bool {
    exists|i: int| 0 <= i < ops.len() && ops[i].output is Some
}

/// The participant at `w` wins the race: it completes, no participant
/// completes in an earlier drive step, and no earlier-declared participant
/// completes in the same step.
pub open spec fn is_winner<T>(ops: Seq<FutureModel<T>>, w: int) -> bool {
    &&& 0 <= w < ops.len()
    &&& ops[w].output is Some
    &&& forall|j: int|
        0 <= j < ops.len() && ops[j].output is Some ==> ops[w].remaining <= ops[j].remaining
    &&& forall|j: int| 0 <= j < w && ops[j].output is Some ==> ops[w].remaining < ops[j].remaining
}

/// Index of the first participant that is ready in the current drive step;
/// `ops.len()` when none is.
pub open spec fn first_ready_index<T>(ops: Seq<FutureModel<T>>) -> int
    decreases ops.len(),
{
    if ops.len() == 0 {
        0
    } else if ready_now(ops[0]) {
        0
    } else {
        1 + first_ready_index(ops.drop_first())
    }
}

/// `first_ready_index` is exactly the least index that is ready now.
proof fn lemma_first_ready_index_is<T>(ops: Seq<FutureModel<T>>, w: int)
    requires
        0 <= w < ops.len(),
        ready_now(ops[w]),
        forall|j: int| 0 <= j < w ==> !ready_now(#[trigger] ops[j]),
    ensures
        first_ready_index(ops) == w,
    decreases ops.len(),
{
    if w > 0 {
        assert(forall|j: int|
            0 <= j < w - 1 ==> ops.drop_first()[j] == ops[j + 1] && !ready_now(
                #[trigger] ops.drop_first()[j],
            ));
        lemma_first_ready_index_is(ops.drop_first(), w - 1);
    }
}

/// When no participant is ready now, `first_ready_index` runs off the end.
proof fn lemma_first_ready_index_none<T>(ops: Seq<FutureModel<T>>)
    requires
        forall|j: int| 0 <= j < ops.len() ==> !ready_now(#[trigger] ops[j]),
    ensures
        first_ready_index(ops) == ops.len(),
    decreases ops.len(),
{
    if ops.len() > 0 {
        assert(forall|j: int|
            0 <= j < ops.len() - 1 ==> ops.drop_first()[j] == ops[j + 1] && !ready_now(
                #[trigger] ops.drop_first()[j],
            ));
        lemma_first_ready_index_none(ops.drop_first());
    }
}

/// At most one participant wins a race.
pub proof fn lemma_winner_unique<T>(ops: Seq<FutureModel<T>>, a: int, b: int)
    requires
        is_winner(ops, a),
        is_winner(ops, b),
    ensures
        a == b,
{
    if a < b {
        assert(ops[b].remaining < ops[a].remaining);
        assert(ops[a].remaining <= ops[b].remaining);
    }
    if b < a {
        assert(ops[a].remaining < ops[b].remaining);
        assert(ops[b].remaining <= ops[a].remaining);
    }
}

/// A participant that is ready at once wins the race whenever no
/// earlier-declared participant is ready at once too — whatever the later
/// participants hold, they cannot overtake it.
pub proof fn lemma_first_ready_wins<T>(ops: Seq<FutureModel<T>>, w: int)
    requires
        0 <= w < ops.len(),
        ready_now(ops[w]),
        forall|j: int| 0 <= j < w ==> !ready_now(#[trigger] ops[j]),
    ensures
        is_winner(ops, w),
{
    assert forall|j: int| 0 <= j < w && ops[j].output is Some implies ops[w].remaining < (
    #[trigger] ops[j]).remaining by {
        assert(!ready_now(ops[j]));
    }
}

/// Whenever some participant completes at all, the race has a winner: the
/// earliest-declared participant among those that complete in the fewest
/// drive steps.
pub proof fn lemma_winner_exists<T>(ops: Seq<FutureModel<T>>)
    requires
        some_participant_completes(ops),
    ensures
        exists|w: int| is_winner(ops, w),
    decreases ops.len(),
{
    let n = ops.len() - 1;
    let prefix = ops.drop_last();
    assert(forall|j: int| 0 <= j < n ==> prefix[j] == ops[j]);
    if some_participant_completes(prefix) {
        lemma_winner_exists(prefix);
        let w = choose|w: int| is_winner(prefix, w);
        if ops[n].output is Some && ops[n].remaining < ops[w].remaining {
            assert forall|j: int|
                0 <= j < ops.len() && ops[j].output is Some implies ops[n].remaining <= (
            #[trigger] ops[j]).remaining by {
                if j < n {
                    assert(ops[w].remaining <= prefix[j].remaining);
                }
            }
            assert forall|j: int|
                0 <= j < n && ops[j].output is Some implies ops[n].remaining < (
            #[trigger] ops[j]).remaining by {
                assert(ops[w].remaining <= prefix[j].remaining);
            }
            assert(is_winner(ops, n));
        } else {
            assert forall|j: int|
                0 <= j < ops.len() && ops[j].output is Some implies ops[w].remaining <= (
            #[trigger] ops[j]).remaining by {
                if j < n {
                    assert(ops[w].remaining <= prefix[j].remaining);
                }
            }
            assert forall|j: int|
                0 <= j < w && ops[j].output is Some implies ops[w].remaining < (
            #[trigger] ops[j]).remaining by {
                assert(ops[w].remaining < prefix[j].remaining);
            }
            assert(is_winner(ops, w));
        }
    } else {
        let i = choose|i: int| 0 <= i < ops.len() && ops[i].output is Some;
        assert(i == n) by {
            if i < n {
                assert(prefix[i].output is Some);
            }
        }
        assert forall|j: int|
            0 <= j < ops.len() && ops[j].output is Some implies ops[n].remaining <= (
        #[trigger] ops[j]).remaining by {
            if j < n {
                assert(prefix[j].output is Some);
            }
        }
        assert(is_winner(ops, n));
    }
}

/// A race over a fixed set of participants, resolved to the value of the
/// first to complete.  `done` records whether the value has been handed out.
#[derive(Debug)]
pub struct Race<T> {
    done: bool,
    ops: Vec<ScriptedFuture<T>>,
}

impl<T> Race<T> {
    /// The combinator has already produced its value; driving it again is a
    /// fatal usage error.
    pub closed spec fn done(&self) -> bool {
        self.done
    }

    /// The participants, in declaration order.
    pub closed spec fn ops_model(&self) -> Seq<FutureModel<T>> {
        self.ops@.map_values(|f: ScriptedFuture<T>| f@)
    }

    /// Build a race over the given participants, in declaration order.
    pub fn new(ops: Vec<ScriptedFuture<T>>) -> (r: Self)
        requires
            2 <= ops@.len() <= 12,
        ensures
            !r.done(),
            r.ops_model() == ops@.map_values(|f: ScriptedFuture<T>| f@),
    {
        Race { done: false, ops }
    }

    /// Whether the race has produced its value.
    pub fn is_done(&self) -> (r: bool)
        ensures
            r == self.done(),
    {
        self.done
    }

    /// One drive step: visit the participants in declaration order and
    /// short-circuit on the first that completes.  Participants before the
    /// winner have been driven one step; participants after it have not been
    /// touched.  When none is ready, every participant has been driven once.
    #[verifier::loop_isolation(false)]
    pub fn poll_step(&mut self) -> (r: FuturePoll<T>)
        requires
            !old(self).done(),
        ensures
            final(self).ops_model().len() == old(self).ops_model().len(),
            ({
                let pre = old(self).ops_model();
                let post = final(self).ops_model();
                let w = first_ready_index(pre);
                if w < pre.len() {
                    &&& 0 <= w
                    &&& r == FuturePoll::Ready(pre[w].output->0)
                    &&& final(self).done()
                    &&& ready_now(pre[w])
                    &&& forall|j: int| 0 <= j < w ==> !ready_now(#[trigger] pre[j])
                    &&& forall|j: int| 0 <= j < w ==> post[j] == future_after_drive(pre[j])
                    &&& post[w] == future_taken(pre[w])
                    &&& forall|j: int| w < j < pre.len() ==> post[j] == pre[j]
                } else {
                    &&& r is Pending
                    &&& !final(self).done()
                    &&& forall|j: int| 0 <= j < pre.len() ==> !ready_now(#[trigger] pre[j])
                    &&& forall|j: int| 0 <= j < pre.len() ==> post[j] == future_after_drive(
                        pre[j],
                    )
                }
            }),
    {
        let ghost pre = self.ops_model();
        let n = self.ops.len();
        let mut i: usize = 0;
        while i < n
            invariant
                i <= n,
                !self.done,
                self.ops@.len() == n,
                forall|j: int| 0 <= j < i ==> !ready_now(#[trigger] pre[j]),
                forall|j: int| 0 <= j < i ==> self.ops_model()[j] == future_after_drive(pre[j]),
                forall|j: int| i <= j < n ==> self.ops_model()[j] == pre[j],
            decreases n - i,
        {
            let ghost before = self.ops_model();
            let op = &mut self.ops[i];
            let step = op.drive();
            proof {
                assert(self.ops_model() =~= before.update(i as int, self.ops@[i as int]@));
            }
            match step {
                FuturePoll::Ready(value) => {
                    self.done = true;
                    proof {
                        lemma_first_ready_index_is(pre, i as int);
                    }
                    return FuturePoll::Ready(value);
                },
                FuturePoll::Pending => {},
            }
            i = i + 1;
        }
        proof {
            lemma_first_ready_index_none(pre);
        }
        FuturePoll::Pending
    }

    /// Drive the race to completion: repeat drive steps until some
    /// participant completes, and return its value; return `None` when no
    /// participant ever completes.  The winner is the participant that
    /// completes in the fewest drive steps, ties broken by declaration order.
    #[verifier::loop_isolation(false)]
    pub fn race(self) -> (r: Option<T>)
        requires
            !self.done(),
        ensures
            r is Some <==> some_participant_completes(self.ops_model()),
            forall|w: int|
                is_winner(self.ops_model(), w) ==> r == Some(
                    #[trigger] self.ops_model()[w].output->0,
                ),
    {
        let ghost orig = self.ops_model();
        let mut this = self;
        let n = this.ops.len();
        let mut k: usize = 0;
        let mut any: bool = false;
        while k < n
            invariant
                k <= n,
                this.ops_model() == orig,
                any == exists|i: int| 0 <= i < k && orig[i].output is Some,
            decreases n - k,
        {
            if this.ops[k].completes() {
                proof {
                    assert(orig[k as int].output is Some);
                }
                any = true;
            }
            k = k + 1;
        }
        if !any {
            proof {
                assert(forall|w: int| !is_winner(orig, w));
            }
            return None;
        }
        let ghost j0 = choose|i: int| 0 <= i < n && orig[i].output is Some;
        let ghost mut passes: nat = 0;
        loop
            invariant
                !this.done(),
                this.ops_model().len() == n,
                forall|j: int|
                    0 <= j < n ==> (#[trigger] this.ops_model()[j]).output == orig[j].output,
                forall|j: int|
                    0 <= j < n && orig[j].output is Some ==> passes <= orig[j].remaining
                        && (#[trigger] this.ops_model()[j]).remaining == orig[j].remaining - passes,
            decreases this.ops_model()[j0].remaining,
        {
            let ghost pre = this.ops_model();
            proof {
                assert(forall|j: int|
                    0 <= j < n ==> (#[trigger] pre[j]).output == orig[j].output);
                assert(forall|j: int|
                    0 <= j < n && orig[j].output is Some ==> passes <= orig[j].remaining && (
                    #[trigger] pre[j]).remaining == orig[j].remaining - passes);
            }
            match this.poll_step() {
                FuturePoll::Ready(value) => {
                    proof {
                        let w = first_ready_index(pre);
                        assert(ready_now(pre[w]));
                        assert(pre[w].output == orig[w].output);
                        assert(orig[w].remaining == passes);
                        assert forall|j: int|
                            0 <= j < n && orig[j].output is Some implies orig[w].remaining <= (
                        #[trigger] orig[j]).remaining by {
                            assert(pre[j].remaining >= 0);
                        }
                        assert forall|j: int|
                            0 <= j < w && orig[j].output is Some implies orig[w].remaining < (
                        #[trigger] orig[j]).remaining by {
                            assert(!ready_now(pre[j]));
                            assert(pre[j].remaining > 0);
                        }
                        assert(is_winner(orig, w));
                        assert(pre[w].output->0 == orig[w].output->0);
                        assert forall|w2: int| is_winner(orig, w2) implies Some(value) == Some(
                            #[trigger] orig[w2].output->0,
                        ) by {
                            lemma_winner_unique(orig, w, w2);
                        }
                    }
                    return Some(value);
                },
                FuturePoll::Pending => {
                    proof {
                        passes = passes + 1;
                        assert forall|j: int|
                            0 <= j < n && orig[j].output is Some implies passes
                            <= orig[j].remaining && (#[trigger] this.ops_model()[j]).remaining
                            == orig[j].remaining - passes by {
                            assert(!ready_now(pre[j]));
                            assert(pre[j].remaining > 0);
                            assert(this.ops_model()[j] == future_after_drive(pre[j]));
                        }
                    }
                },
            }
        }
    }
}

} // verus!
