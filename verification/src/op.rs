//! Deterministic model operations and the outcomes of driving them.
//!
//! An operation is an asynchronous unit of work that makes progress only when
//! its owner drives it.  A single-value operation eventually becomes ready
//! with one output; a producer yields a sequence of items and then signals
//! that production has ended.  The combinators in this crate own such
//! operations; here they are modelled as scripted units whose behaviour under
//! each drive step is fixed in advance, so that every claim about the
//! combinators' polling logic can be proved.

use vstd::prelude::*;

verus! {

/// Outcome of one drive step of a single-value operation.
#[derive(Debug)]
pub enum FuturePoll<T> {
    /// The operation is not ready yet; it must be driven again later.
    Pending,
    /// The operation completed with its final value.
    Ready(T),
}

/// Outcome of one drive step of an item producer.
#[derive(Debug)]
pub enum StreamPoll<T> {
    /// The producer is not ready yet; it must be driven again later.
    Pending,
    /// The producer yielded one item.
    Item(T),
    /// The producer will never yield an item again.
    Ended,
}

/// Mathematical state of a single-value operation: how many drive steps it
/// still reports "not ready" before completing, and the value it completes
/// with (`None` for an operation that is never ready).
pub struct FutureModel<T> {
    pub remaining: nat,
    pub output: Option<T>,
}

/// The operation completes on the very next drive step.
pub open spec fn ready_now<T>(f: FutureModel<T>) -> bool {
    f.output is Some && f.remaining == 0
}

/// State of a not-yet-ready operation after one drive step.
pub open spec fn future_after_drive<T>(f: FutureModel<T>) -> FutureModel<T> {
    FutureModel {
        remaining: if f.remaining > 0 {
            (f.remaining - 1) as nat
        } else {
            0
        },
        output: f.output,
    }
}

/// State of a ready operation after the drive step that takes its value out.
pub open spec fn future_taken<T>(f: FutureModel<T>) -> FutureModel<T> {
    FutureModel { remaining: f.remaining, output: None }
}

/// A deterministic single-value operation: it reports "not ready" for
/// `remaining` drive steps and then yields `output`; an operation whose
/// `output` is `None` is never ready.
#[derive(Debug)]
pub struct ScriptedFuture<T> {
    remaining: usize,
    output: Option<T>,
}

impl<T> View for ScriptedFuture<T> {
    type V = FutureModel<T>;

    closed spec fn view(&self) -> FutureModel<T> {
        FutureModel { remaining: self.remaining as nat, output: self.output }
    }
}

impl<T> ScriptedFuture<T> {
    /// An operation that is ready at once with `value`.
    pub fn ready(value: T) -> (r: Self)
        ensures
            r@ == (FutureModel { remaining: 0 as nat, output: Some(value) }),
    {
        ScriptedFuture { remaining: 0, output: Some(value) }
    }

    /// An operation that is never ready.
    pub fn pending() -> (r: Self)
        ensures
            r@ == (FutureModel { remaining: 0 as nat, output: None::<T> }),
    {
        ScriptedFuture { remaining: 0, output: None }
    }

    /// An operation that reports "not ready" `steps` times and then yields
    /// `value`.
    pub fn ready_after(steps: usize, value: T) -> (r: Self)
        ensures
            r@ == (FutureModel { remaining: steps as nat, output: Some(value) }),
    {
        ScriptedFuture { remaining: steps, output: Some(value) }
    }

    /// Whether this operation completes at all, on some drive step.
    pub fn completes(&self) -> (r: bool)
        ensures
            r == (self@.output is Some),
    {
        self.output.is_some()
    }

    /// Drive the operation one step: it either completes, handing out its
    /// value, or reports "not ready" and comes one step closer to readiness.
    pub fn drive(&mut self) -> (r: FuturePoll<T>)
        ensures
            ready_now(old(self)@) ==> r == FuturePoll::Ready(old(self)@.output->0)
                && final(self)@ == future_taken(old(self)@),
            !ready_now(old(self)@) ==> r is Pending
                && final(self)@ == future_after_drive(old(self)@),
    {
        if self.remaining == 0 {
            match self.output.take() {
                Some(value) => FuturePoll::Ready(value),
                None => FuturePoll::Pending,
            }
        } else {
            self.remaining = self.remaining - 1;
            FuturePoll::Pending
        }
    }
}

/// The producer has ended: it has no entries left to hand out.
pub open spec fn stream_ended_now<T>(s: Seq<Option<T>>) -> bool {
    s.len() == 0
}

/// The producer yields an item on the very next drive step.
pub open spec fn stream_item_now<T>(s: Seq<Option<T>>) -> bool {
    s.len() > 0 && s[0] is Some
}

/// A deterministic producer.  Each drive step consumes the front entry of its
/// script: `Some(v)` yields the item `v`, `None` reports "not ready" once.  A
/// producer whose script is exhausted reports that production has ended.
#[derive(Debug)]
pub struct ScriptedStream<T> {
    script: Vec<Option<T>>,
}

impl<T> View for ScriptedStream<T> {
    type V = Seq<Option<T>>;

    closed spec fn view(&self) -> Seq<Option<T>> {
        self.script@
    }
}

impl<T> ScriptedStream<T> {
    /// A producer that follows `script` entry by entry.
    pub fn from_script(script: Vec<Option<T>>) -> (r: Self)
        ensures
            r@ == script@,
    {
        ScriptedStream { script }
    }

    /// A producer that yields exactly one item and then ends.
    pub fn once(value: T) -> (r: Self)
        ensures
            r@ == seq![Some(value)],
    {
        let mut script: Vec<Option<T>> = Vec::new();
        script.push(Some(value));
        ScriptedStream { script }
    }

    /// A producer that has already ended.
    pub fn done() -> (r: Self)
        ensures
            r@ == Seq::<Option<T>>::empty(),
    {
        let script: Vec<Option<T>> = Vec::new();
        ScriptedStream { script }
    }

    /// Drive the producer one step: it yields its next item, reports "not
    /// ready", or signals that production has ended.
    pub fn drive(&mut self) -> (r: StreamPoll<T>)
        ensures
            stream_ended_now(old(self)@) ==> r is Ended && final(self)@ == old(self)@,
            !stream_ended_now(old(self)@) ==> final(self)@ == old(self)@.drop_first()
                && (match old(self)@[0] {
                    Some(v) => r == StreamPoll::Item(v),
                    None => r is Pending,
                }),
    {
        if self.script.len() == 0 {
            StreamPoll::Ended
        } else {
            match self.script.remove(0) {
                Some(value) => StreamPoll::Item(value),
                None => StreamPoll::Pending,
            }
        }
    }
}

} // verus!
