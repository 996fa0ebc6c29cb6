//! The dynamic multiplexer: a growable group of item producers driven as a
//! single unit, with keyed membership.
//!
//! Members live in stable slots: a member keeps its slot index from insertion
//! until removal, and freed indices are reused by later insertions (so a key
//! held across a removal can come to denote a new member — a documented
//! identity weakness of bare index keys).  One drive step visits every
//! currently held member once, in ascending slot order: the first member with
//! an item ready short-circuits the pass; members that signal the end of
//! their production are evicted; a pass in which every member had ended ends
//! the whole group, and an empty group reports "production ended" at once
//! rather than "not ready".

use vstd::prelude::*;

use crate::op::{stream_ended_now, stream_item_now, ScriptedStream, StreamPoll};

verus! {

/// The slot at `i` currently holds a member.
pub open spec fn slot_occupied<T>(g: Seq<Option<Seq<Option<T>>>>, i: int) -> bool {
    0 <= i < g.len() && g[i] is Some
}

/// The member at `i` has ended its production.
pub open spec fn slot_ended_now<T>(g: Seq<Option<Seq<Option<T>>>>, i: int) -> bool {
    slot_occupied(g, i) && stream_ended_now(g[i]->0)
}

/// The member at `i` yields an item on the next drive step.
pub open spec fn slot_item_now<T>(g: Seq<Option<Seq<Option<T>>>>, i: int) -> bool {
    slot_occupied(g, i) && stream_item_now(g[i]->0)
}

/// Every member currently held has ended its production.
pub open spec fn all_ended<T>(g: Seq<Option<Seq<Option<T>>>>) -> bool {
    forall|i: int| slot_occupied(g, i) ==> slot_ended_now(g, i)
}

/// Number of slots that currently hold a member.
pub open spec fn count_occupied<T>(g: Seq<Option<Seq<Option<T>>>>) -> nat
    decreases g.len(),
{
    if g.len() == 0 {
        0
    } else {
        count_occupied(g.drop_last()) + if g.last() is Some {
            1nat
        } else {
            0nat
        }
    }
}

/// Index of the first vacant slot; `g.len()` when every slot is held.
pub open spec fn first_vacant<T>(g: Seq<Option<Seq<Option<T>>>>) -> int
    decreases g.len(),
{
    if g.len() == 0 {
        0
    } else if g[0] is None {
        0
    } else {
        1 + first_vacant(g.drop_first())
    }
}

/// Membership after inserting a member with script `s`: it takes the first
/// vacant slot, or a fresh slot at the end when none is vacant.
pub open spec fn group_insert<T>(g: Seq<Option<Seq<Option<T>>>>, s: Seq<Option<T>>) -> Seq<
    Option<Seq<Option<T>>>,
> {
    if first_vacant(g) < g.len() {
        g.update(first_vacant(g), Some(s))
    } else {
        g.push(Some(s))
    }
}

/// How one drive pass that visited the slots below `upto` rewrites the
/// membership: visited members that had ended are evicted, other visited
/// members have consumed one script entry, everything else is untouched.
pub open spec fn pass_rewrites_slots<T>(
    pre: Seq<Option<Seq<Option<T>>>>,
    post: Seq<Option<Seq<Option<T>>>>,
    upto: int,
) -> bool {
    &&& post.len() == pre.len()
    &&& forall|j: int| 0 <= j < pre.len() && pre[j] is None ==> post[j] == pre[j]
    &&& forall|j: int| 0 <= j < upto && slot_ended_now(pre, j) ==> post[j] is None
    &&& forall|j: int|
        0 <= j < upto && slot_occupied(pre, j) && !slot_ended_now(pre, j) ==> post[j] == Some(
            (pre[j]->0).drop_first(),
        )
    &&& forall|j: int| upto <= j < pre.len() && slot_occupied(pre, j) ==> post[j] == pre[j]
}

/// Index of the first member with an item ready; `g.len()` when none has.
pub open spec fn first_item_index<T>(g: Seq<Option<Seq<Option<T>>>>) -> int
    decreases g.len(),
{
    if g.len() == 0 {
        0
    } else if g[0] is Some && stream_item_now(g[0]->0) {
        0
    } else {
        1 + first_item_index(g.drop_first())
    }
}

/// `first_item_index` is exactly the least index with an item ready.
proof fn lemma_first_item_index_is<T>(g: Seq<Option<Seq<Option<T>>>>, w: int)
    requires
        0 <= w < g.len(),
        slot_item_now(g, w),
        forall|j: int| 0 <= j < w ==> !slot_item_now(g, j),
    ensures
        first_item_index(g) == w,
    decreases g.len(),
{
    if w > 0 {
        assert(!slot_item_now(g, 0));
        assert forall|j: int| 0 <= j < w - 1 implies !slot_item_now(g.drop_first(), j) by {
            assert(g.drop_first()[j] == g[j + 1]);
            assert(!slot_item_now(g, j + 1));
        }
        assert(slot_item_now(g.drop_first(), w - 1)) by {
            assert(g.drop_first()[w - 1] == g[w]);
        }
        lemma_first_item_index_is(g.drop_first(), w - 1);
    }
}

/// When no member has an item ready, `first_item_index` runs off the end.
proof fn lemma_first_item_index_none<T>(g: Seq<Option<Seq<Option<T>>>>)
    requires
        forall|j: int| 0 <= j < g.len() ==> !slot_item_now(g, j),
    ensures
        first_item_index(g) == g.len(),
    decreases g.len(),
{
    if g.len() > 0 {
        assert(!slot_item_now(g, 0));
        assert forall|j: int| 0 <= j < g.len() - 1 implies !slot_item_now(g.drop_first(), j) by {
            assert(g.drop_first()[j] == g[j + 1]);
            assert(!slot_item_now(g, j + 1));
        }
        lemma_first_item_index_none(g.drop_first());
    }
}

/// A held slot witnesses at least one member.
proof fn lemma_occupied_count_pos<T>(g: Seq<Option<Seq<Option<T>>>>, i: int)
    requires
        slot_occupied(g, i),
    ensures
        count_occupied(g) > 0,
    decreases g.len(),
{
    if i < g.len() - 1 {
        assert(slot_occupied(g.drop_last(), i));
        lemma_occupied_count_pos(g.drop_last(), i);
    }
}

/// A group with no held slot holds no members.
proof fn lemma_vacant_count_zero<T>(g: Seq<Option<Seq<Option<T>>>>)
    requires
        forall|i: int| !slot_occupied(g, i),
    ensures
        count_occupied(g) == 0,
    decreases g.len(),
{
    if g.len() > 0 {
        assert(!slot_occupied(g, g.len() - 1));
        assert forall|i: int| !slot_occupied(g.drop_last(), i) by {
            if 0 <= i < g.len() - 1 {
                assert(!slot_occupied(g, i));
            }
        }
        lemma_vacant_count_zero(g.drop_last());
    }
}

/// No more members than slots.
proof fn lemma_count_le_len<T>(g: Seq<Option<Seq<Option<T>>>>)
    ensures
        count_occupied(g) <= g.len(),
    decreases g.len(),
{
    if g.len() > 0 {
        lemma_count_le_len(g.drop_last());
    }
}

/// Writing one slot changes the member count in the evident way.
proof fn lemma_count_update<T>(g: Seq<Option<Seq<Option<T>>>>, i: int, v: Option<Seq<Option<T>>>)
    requires
        0 <= i < g.len(),
    ensures
        count_occupied(g.update(i, v)) == count_occupied(g) + (if v is Some {
            1int
        } else {
            0int
        }) - (if g[i] is Some {
            1int
        } else {
            0int
        }),
    decreases g.len(),
{
    if i == g.len() - 1 {
        assert(g.update(i, v).drop_last() =~= g.drop_last());
    } else {
        assert(g.update(i, v).drop_last() =~= g.drop_last().update(i, v));
        lemma_count_update(g.drop_last(), i, v);
    }
}

/// Appending a held slot raises the member count by one.
proof fn lemma_count_push<T>(g: Seq<Option<Seq<Option<T>>>>, s: Seq<Option<T>>)
    ensures
        count_occupied(g.push(Some(s))) == count_occupied(g) + 1,
{
    assert(g.push(Some(s)).drop_last() =~= g);
}

/// `first_vacant` is vacant when in range, and everything below it is held.
proof fn lemma_first_vacant_props<T>(g: Seq<Option<Seq<Option<T>>>>)
    ensures
        0 <= first_vacant(g) <= g.len(),
        first_vacant(g) < g.len() ==> g[first_vacant(g)] is None,
        forall|j: int| 0 <= j < first_vacant(g) ==> g[j] is Some,
    decreases g.len(),
{
    if g.len() > 0 && g[0] is Some {
        lemma_first_vacant_props(g.drop_first());
        assert forall|j: int| 0 <= j < first_vacant(g) implies g[j] is Some by {
            if j > 0 {
                assert(g.drop_first()[j - 1] is Some);
                assert(g.drop_first()[j - 1] == g[j]);
            }
        }
    }
}

/// The slot index a vacancy scan stopped at is the first vacant one.
proof fn lemma_first_vacant_is<T>(g: Seq<Option<Seq<Option<T>>>>, w: int)
    requires
        0 <= w <= g.len(),
        w < g.len() ==> g[w] is None,
        forall|j: int| 0 <= j < w ==> g[j] is Some,
    ensures
        first_vacant(g) == w,
    decreases g.len(),
{
    if w > 0 {
        assert forall|j: int| 0 <= j < w - 1 implies g.drop_first()[j] is Some by {
            assert(g.drop_first()[j] == g[j + 1]);
            assert(g[j + 1] is Some);
        }
        assert(w - 1 < g.drop_first().len() ==> g.drop_first()[w - 1] is None) by {
            if w < g.len() {
                assert(g.drop_first()[w - 1] == g[w]);
            }
        }
        lemma_first_vacant_is(g.drop_first(), w - 1);
    }
}

/// Inserting a member and then removing it by the key handed back brings the
/// membership count back to what it was, and leaves that key denoting no
/// member.  A drive pass never touches a vacant slot, so the removed member
/// is never driven again.
pub proof fn lemma_insert_then_remove<T>(g: Seq<Option<Seq<Option<T>>>>, s: Seq<Option<T>>)
    ensures
        ({
            let k = first_vacant(g);
            let g1 = group_insert(g, s);
            let g2 = g1.update(k, None);
            &&& slot_occupied(g1, k)
            &&& count_occupied(g1) == count_occupied(g) + 1
            &&& count_occupied(g2) == count_occupied(g)
            &&& !slot_occupied(g2, k)
        }),
{
    let k = first_vacant(g);
    lemma_first_vacant_props(g);
    if k < g.len() {
        lemma_count_update(g, k, Some(s));
        lemma_count_update(g.update(k, Some(s)), k, None);
    } else {
        lemma_count_push(g, s);
        lemma_count_update(g.push(Some(s)), k, None);
    }
}

/// A key into the group: an opaque handle denoting the slot a member was
/// inserted into, used to remove it or query its membership later.
#[derive(Debug, Clone, Copy, PartialEq, Eq, PartialOrd, Ord, Hash)]
pub struct Key(usize);

impl View for Key {
    type V = int;

    closed spec fn view(&self) -> int {
        self.0 as int
    }
}

/// A growable group of item producers driven as a single unit.  The slots
/// sequence is the stable-index store; `count` caches how many slots
/// currently hold a member.
#[derive(Debug)]
pub struct StreamGroup<T> {
    slots: Vec<Option<ScriptedStream<T>>>,
    count: usize,
}

impl<T> View for StreamGroup<T> {
    type V = Seq<Option<Seq<Option<T>>>>;

    closed spec fn view(&self) -> Seq<Option<Seq<Option<T>>>> {
        self.slots@.map_values(
            |o: Option<ScriptedStream<T>>|
                match o {
                    Some(s) => Some(s@),
                    None => None,
                },
        )
    }
}

impl<T> StreamGroup<T> {
    /// The cached member count agrees with the slots.
    pub closed spec fn wf(&self) -> bool {
        self.count == count_occupied(self@)
    }

    /// Create an empty group.
    pub fn new() -> (r: Self)
        ensures
            r.wf(),
            r@ == Seq::<Option<Seq<Option<T>>>>::empty(),
    {
        let slots: Vec<Option<ScriptedStream<T>>> = Vec::new();
        proof {
            assert(slots@.map_values(
                |o: Option<ScriptedStream<T>>|
                    match o {
                        Some(s) => Some(s@),
                        None => None,
                    },
            ) =~= Seq::<Option<Seq<Option<T>>>>::empty());
        }
        StreamGroup { slots, count: 0 }
    }

    /// Create an empty group with room reserved for `capacity` members.
    pub fn with_capacity(capacity: usize) -> (r: Self)
        ensures
            r.wf(),
            r@ == Seq::<Option<Seq<Option<T>>>>::empty(),
    {
        let slots: Vec<Option<ScriptedStream<T>>> = Vec::with_capacity(capacity);
        proof {
            assert(slots@.map_values(
                |o: Option<ScriptedStream<T>>|
                    match o {
                        Some(s) => Some(s@),
                        None => None,
                    },
            ) =~= Seq::<Option<Seq<Option<T>>>>::empty());
        }
        StreamGroup { slots, count: 0 }
    }

    /// Number of members currently held in the group.
    pub fn len(&self) -> (r: usize)
        requires
            self.wf(),
        ensures
            r == count_occupied(self@),
    {
        self.count
    }

    /// Whether the group currently holds no member.
    pub fn is_empty(&self) -> (r: bool)
        requires
            self.wf(),
        ensures
            r == (count_occupied(self@) == 0),
    {
        self.count == 0
    }

    /// Insert a new member and hand back the key for its slot: the first
    /// vacant slot, or a fresh one at the end when every slot is held.
    #[verifier::loop_isolation(false)]
    pub fn insert(&mut self, stream: ScriptedStream<T>) -> (key: Key)
        requires
            old(self).wf(),
        ensures
            final(self).wf(),
            key@ == first_vacant(old(self)@),
            !slot_occupied(old(self)@, key@),
            final(self)@ == group_insert(old(self)@, stream@),
            slot_occupied(final(self)@, key@),
            final(self)@[key@] == Some(stream@),
            count_occupied(final(self)@) == count_occupied(old(self)@) + 1,
    {
        let ghost pre = self@;
        let ghost sv = stream@;
        let n = self.slots.len();
        let mut i: usize = 0;
        while i < n
            invariant
                i <= n,
                self@ == pre,
                self.count == count_occupied(pre),
                forall|j: int| 0 <= j < i ==> pre[j] is Some,
            decreases n - i,
        {
            if self.slots[i].is_none() {
                proof {
                    lemma_first_vacant_is(pre, i as int);
                    lemma_count_update(pre, i as int, Some(sv));
                    lemma_count_le_len(pre.update(i as int, Some(sv)));
                }
                self.slots[i] = Some(stream);
                proof {
                    assert(self@ =~= pre.update(i as int, Some(sv)));
                }
                self.count = self.count + 1;
                return Key(i);
            }
            i = i + 1;
        }
        proof {
            lemma_first_vacant_is(pre, n as int);
            lemma_count_push(pre, sv);
            lemma_count_le_len(pre.push(Some(sv)));
        }
        self.slots.push(Some(stream));
        let m: usize = self.slots.len();
        proof {
            assert(self@ =~= pre.push(Some(sv)));
            assert(count_occupied(self@) <= m);
        }
        self.count = self.count + 1;
        Key(n)
    }

    /// Remove the member a key denotes, if the key currently denotes one,
    /// and report whether a removal happened.  An unknown or stale key is a
    /// no-op, not an error.
    pub fn remove(&mut self, key: Key) -> (r: bool)
        requires
            old(self).wf(),
        ensures
            final(self).wf(),
            r == slot_occupied(old(self)@, key@),
            r ==> final(self)@ == old(self)@.update(key@, None),
            !r ==> final(self)@ == old(self)@,
            count_occupied(final(self)@) == count_occupied(old(self)@) - (if r {
                1int
            } else {
                0int
            }),
            !slot_occupied(final(self)@, key@),
    {
        let ghost pre = self@;
        if key.0 < self.slots.len() {
            if self.slots[key.0].is_some() {
                proof {
                    lemma_count_update(pre, key.0 as int, None);
                    assert(slot_occupied(pre, key.0 as int));
                    lemma_occupied_count_pos(pre, key.0 as int);
                }
                self.slots[key.0] = None;
                self.count = self.count - 1;
                proof {
                    assert(self@ =~= pre.update(key.0 as int, None));
                }
                return true;
            }
        }
        false
    }

    /// Whether the key currently denotes a member of the group.
    pub fn contains_key(&mut self, key: Key) -> (r: bool)
        requires
            old(self).wf(),
        ensures
            *final(self) == *old(self),
            r == slot_occupied(old(self)@, key@),
    {
        if key.0 < self.slots.len() {
            self.slots[key.0].is_some()
        } else {
            false
        }
    }

    /// Turn the group into a view that also yields the key of each item.
    pub fn keyed(self) -> (r: Keyed<T>)
        ensures
            r@ == self@,
            self.wf() ==> r.wf(),
    {
        Keyed { group: self }
    }

    /// One drive pass, reporting the originating key with a yielded item.
    /// Members are visited in ascending slot order; the first with an item
    /// ready stops the pass; visited members that had ended are evicted; a
    /// pass over members that have all ended — or over an empty group — ends
    /// the whole group's production.
    #[verifier::loop_isolation(false)]
    pub(crate) fn poll_next_inner(&mut self) -> (r: StreamPoll<(Key, T)>)
        requires
            old(self).wf(),
        ensures
            final(self).wf(),
            count_occupied(old(self)@) == 0 ==> r is Ended && final(self)@ == old(self)@,
            count_occupied(old(self)@) > 0 ==> ({
                let pre = old(self)@;
                let post = final(self)@;
                let w = first_item_index(pre);
                &&& 0 <= w <= pre.len()
                &&& w < pre.len() ==> ({
                    &&& slot_item_now(pre, w)
                    &&& forall|j: int| 0 <= j < w ==> !slot_item_now(pre, j)
                    &&& pass_rewrites_slots(pre, post, w + 1)
                    &&& r matches StreamPoll::Item(kv) && kv.0@ == w && kv.1 == (pre[w]->0)[0]->0
                })
                &&& w == pre.len() ==> (forall|j: int| 0 <= j < pre.len() ==> !slot_item_now(
                    pre,
                    j,
                )) && pass_rewrites_slots(pre, post, w) && (if all_ended(pre) {
                    r is Ended
                } else {
                    r is Pending
                })
            }),
    {
        let ghost pre = self@;
        if self.count == 0 {
            return StreamPoll::Ended;
        }
        let n = self.slots.len();
        let mut i: usize = 0;
        let mut found: Option<(Key, T)> = None;
        while i < n && found.is_none()
            invariant
                i <= n,
                n == pre.len(),
                self@.len() == n,
                self.count == count_occupied(self@),
                found is None ==> forall|j: int| 0 <= j < i ==> !slot_item_now(pre, j),
                found is None ==> pass_rewrites_slots(pre, self@, i as int),
                found matches Some(kv) ==> 1 <= i && slot_item_now(pre, i - 1) && (forall|j: int|
                    0 <= j < i - 1 ==> !slot_item_now(pre, j)) && kv.0@ == i - 1 && kv.1 == (pre[i
                    - 1]->0)[0]->0 && pass_rewrites_slots(pre, self@, i as int),
            decreases n - i,
        {
            let ghost cur = self@;
            let slot = &mut self.slots[i];
            match slot {
                Some(s) => {
                    let step = s.drive();
                    match step {
                        StreamPoll::Item(value) => {
                            found = Some((Key(i), value));
                            proof {
                                assert(self@ =~= cur.update(
                                    i as int,
                                    Some((pre[i as int]->0).drop_first()),
                                ));
                                lemma_count_update(
                                    cur,
                                    i as int,
                                    Some((pre[i as int]->0).drop_first()),
                                );
                            }
                        },
                        StreamPoll::Ended => {
                            *slot = None;
                            proof {
                                assert(self@ =~= cur.update(i as int, None));
                                lemma_count_update(cur, i as int, None);
                                assert(slot_occupied(cur, i as int));
                                lemma_occupied_count_pos(cur, i as int);
                            }
                            self.count = self.count - 1;
                        },
                        StreamPoll::Pending => {
                            proof {
                                assert(self@ =~= cur.update(
                                    i as int,
                                    Some((pre[i as int]->0).drop_first()),
                                ));
                                lemma_count_update(
                                    cur,
                                    i as int,
                                    Some((pre[i as int]->0).drop_first()),
                                );
                            }
                        },
                    }
                },
                None => {
                    proof {
                        assert(self@ =~= cur);
                    }
                },
            }
            i = i + 1;
        }
        match found {
            Some(kv) => {
                proof {
                    lemma_first_item_index_is(pre, i as int - 1);
                }
                StreamPoll::Item(kv)
            },
            None => {
                proof {
                    lemma_first_item_index_none(pre);
                    if self.count == 0 {
                        assert forall|j: int| slot_occupied(pre, j) implies slot_ended_now(
                            pre,
                            j,
                        ) by {
                            if !slot_ended_now(pre, j) {
                                assert(slot_occupied(self@, j));
                                lemma_occupied_count_pos(self@, j);
                            }
                        }
                    } else {
                        assert(exists|j: int| slot_occupied(self@, j)) by {
                            if !exists|j: int| slot_occupied(self@, j) {
                                assert(forall|j: int| !slot_occupied(self@, j));
                                lemma_vacant_count_zero(self@);
                            }
                        }
                        let j = choose|j: int| slot_occupied(self@, j);
                        assert(!(pre[j] is None));
                        assert(!slot_ended_now(pre, j));
                        assert(slot_occupied(pre, j));
                        assert(!all_ended(pre));
                    }
                }
                if self.count == 0 {
                    StreamPoll::Ended
                } else {
                    StreamPoll::Pending
                }
            },
        }
    }

    /// One drive pass of the group as a plain producer: the same pass as
    /// [`StreamGroup::poll_next_inner`], with the originating key dropped
    /// from a yielded item.
    pub fn poll_next(&mut self) -> (r: StreamPoll<T>)
        requires
            old(self).wf(),
        ensures
            final(self).wf(),
            count_occupied(old(self)@) == 0 ==> r is Ended && final(self)@ == old(self)@,
            count_occupied(old(self)@) > 0 ==> ({
                let pre = old(self)@;
                let post = final(self)@;
                let w = first_item_index(pre);
                &&& 0 <= w <= pre.len()
                &&& w < pre.len() ==> slot_item_now(pre, w) && (forall|j: int|
                    0 <= j < w ==> !slot_item_now(pre, j)) && pass_rewrites_slots(pre, post, w + 1)
                    && r == StreamPoll::Item((pre[w]->0)[0]->0)
                &&& w == pre.len() ==> (forall|j: int| 0 <= j < pre.len() ==> !slot_item_now(
                    pre,
                    j,
                )) && pass_rewrites_slots(pre, post, w) && (if all_ended(pre) {
                    r is Ended
                } else {
                    r is Pending
                })
            }),
    {
        match self.poll_next_inner() {
            StreamPoll::Item(kv) => StreamPoll::Item(kv.1),
            StreamPoll::Ended => StreamPoll::Ended,
            StreamPoll::Pending => StreamPoll::Pending,
        }
    }
}

/// Classify one finished drive pass from what it observed, as the drive
/// algorithm prescribes: a yielded item short-circuits the pass; when every
/// one of the `total` visited members had ended, the whole group's
/// production has ended; anything else leaves the group not ready.  A driver
/// of real, externally-polled producers makes this decision through here.
pub fn conclude_pass<T>(total: usize, ended: usize, item: Option<T>) -> (r: StreamPoll<T>)
    requires
        ended <= total,
        item is Some ==> ended < total,
    ensures
        item matches Some(v) ==> r == StreamPoll::Item(v),
        item is None && ended == total ==> r is Ended,
        item is None && ended < total ==> r is Pending,
{
    match item {
        Some(value) => StreamPoll::Item(value),
        None => {
            if ended == total {
                StreamPoll::Ended
            } else {
                StreamPoll::Pending
            }
        },
    }
}

/// A view over a group that yields each item together with the key of the
/// member that produced it; membership operations are forwarded unchanged.
#[derive(Debug)]
pub struct Keyed<T> {
    group: StreamGroup<T>,
}

impl<T> View for Keyed<T> {
    type V = Seq<Option<Seq<Option<T>>>>;

    closed spec fn view(&self) -> Seq<Option<Seq<Option<T>>>> {
        self.group@
    }
}

impl<T> Keyed<T> {
    /// The underlying group's member count cache agrees with its slots.
    pub closed spec fn wf(&self) -> bool {
        self.group.wf()
    }

    /// Number of members currently held.
    pub fn len(&self) -> (r: usize)
        requires
            self.wf(),
        ensures
            r == count_occupied(self@),
    {
        self.group.len()
    }

    /// Whether no member is currently held.
    pub fn is_empty(&self) -> (r: bool)
        requires
            self.wf(),
        ensures
            r == (count_occupied(self@) == 0),
    {
        self.group.is_empty()
    }

    /// Insert a new member; forwarded to the underlying group.
    pub fn insert(&mut self, stream: ScriptedStream<T>) -> (key: Key)
        requires
            old(self).wf(),
        ensures
            final(self).wf(),
            key@ == first_vacant(old(self)@),
            !slot_occupied(old(self)@, key@),
            final(self)@ == group_insert(old(self)@, stream@),
            count_occupied(final(self)@) == count_occupied(old(self)@) + 1,
    {
        self.group.insert(stream)
    }

    /// Remove the member a key denotes; forwarded to the underlying group.
    pub fn remove(&mut self, key: Key) -> (r: bool)
        requires
            old(self).wf(),
        ensures
            final(self).wf(),
            r == slot_occupied(old(self)@, key@),
            r ==> final(self)@ == old(self)@.update(key@, None),
            !r ==> final(self)@ == old(self)@,
            count_occupied(final(self)@) == count_occupied(old(self)@) - (if r {
                1int
            } else {
                0int
            }),
    {
        self.group.remove(key)
    }

    /// Whether the key currently denotes a member; forwarded unchanged.
    pub fn contains_key(&mut self, key: Key) -> (r: bool)
        requires
            old(self).wf(),
        ensures
            *final(self) == *old(self),
            r == slot_occupied(old(self)@, key@),
    {
        self.group.contains_key(key)
    }

    /// One drive pass, yielding the originating key alongside each item.
    pub fn poll_next(&mut self) -> (r: StreamPoll<(Key, T)>)
        requires
            old(self).wf(),
        ensures
            final(self).wf(),
            count_occupied(old(self)@) == 0 ==> r is Ended && final(self)@ == old(self)@,
            count_occupied(old(self)@) > 0 ==> ({
                let pre = old(self)@;
                let post = final(self)@;
                let w = first_item_index(pre);
                &&& 0 <= w <= pre.len()
                &&& w < pre.len() ==> ({
                    &&& slot_item_now(pre, w)
                    &&& forall|j: int| 0 <= j < w ==> !slot_item_now(pre, j)
                    &&& pass_rewrites_slots(pre, post, w + 1)
                    &&& r matches StreamPoll::Item(kv) && kv.0@ == w && kv.1 == (pre[w]->0)[0]->0
                })
                &&& w == pre.len() ==> (forall|j: int| 0 <= j < pre.len() ==> !slot_item_now(
                    pre,
                    j,
                )) && pass_rewrites_slots(pre, post, w) && (if all_ended(pre) {
                    r is Ended
                } else {
                    r is Pending
                })
            }),
    {
        self.group.poll_next_inner()
    }
}

} // verus!
