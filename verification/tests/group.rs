use race_group::group::{conclude_pass, StreamGroup};
use race_group::op::{ScriptedStream, StreamPoll};

#[test]
fn smoke() {
    let mut group: StreamGroup<i32> = StreamGroup::new();
    group.insert(ScriptedStream::once(2));
    group.insert(ScriptedStream::once(4));

    let mut out = 0;
    loop {
        match group.poll_next() {
            StreamPoll::Item(num) => out += num,
            StreamPoll::Pending => {}
            StreamPoll::Ended => break,
        }
    }
    assert_eq!(out, 6);
    assert_eq!(group.len(), 0);
    assert!(group.is_empty());
}

#[test]
fn empty_group_is_ended_not_pending() {
    let mut group: StreamGroup<i32> = StreamGroup::new();
    assert!(matches!(group.poll_next(), StreamPoll::Ended));
    // and it stays that way when driven again
    assert!(matches!(group.poll_next(), StreamPoll::Ended));
}

#[test]
fn with_capacity_starts_empty() {
    let mut group: StreamGroup<i32> = StreamGroup::with_capacity(8);
    assert_eq!(group.len(), 0);
    assert!(group.is_empty());
    group.insert(ScriptedStream::once(12));
    assert_eq!(group.len(), 1);
    assert!(!group.is_empty());
}

#[test]
fn remove_semantics() {
    let mut group: StreamGroup<i32> = StreamGroup::new();
    let key = group.insert(ScriptedStream::once(4));
    assert_eq!(group.len(), 1);
    assert!(group.contains_key(key));
    assert!(group.remove(key));
    assert_eq!(group.len(), 0);
    assert!(!group.contains_key(key));
    // removing by a stale key is a no-op, not an error
    assert!(!group.remove(key));
    // the removed member is never driven again: nothing is left to yield
    assert!(matches!(group.poll_next(), StreamPoll::Ended));
}

#[test]
fn freed_slot_is_reused_by_the_next_insertion() {
    let mut group: StreamGroup<i32> = StreamGroup::new();
    let first = group.insert(ScriptedStream::once(1));
    let second = group.insert(ScriptedStream::once(2));
    assert_ne!(first, second);
    group.remove(first);
    // bare-index keys: the freed slot is handed to the next insertion, so
    // the stale key now denotes the new member
    let third = group.insert(ScriptedStream::once(3));
    assert_eq!(first, third);
    assert!(group.contains_key(first));
}

#[test]
fn pending_entries_defer_the_item() {
    let mut group: StreamGroup<i32> = StreamGroup::new();
    group.insert(ScriptedStream::from_script(vec![None, Some(5)]));
    assert!(matches!(group.poll_next(), StreamPoll::Pending));
    match group.poll_next() {
        StreamPoll::Item(v) => assert_eq!(v, 5),
        _ => panic!("the deferred item was due this step"),
    }
}

#[test]
fn lowest_index_ready_member_wins_the_pass() {
    let mut group: StreamGroup<i32> = StreamGroup::new();
    group.insert(ScriptedStream::from_script(vec![Some(1), Some(2)]));
    group.insert(ScriptedStream::from_script(vec![Some(10), Some(20)]));
    // each pass stops at the first ready member, so the low slot starves the
    // high one until it runs out
    match group.poll_next() {
        StreamPoll::Item(v) => assert_eq!(v, 1),
        _ => panic!("slot zero was ready"),
    }
    match group.poll_next() {
        StreamPoll::Item(v) => assert_eq!(v, 2),
        _ => panic!("slot zero was still ready"),
    }
    match group.poll_next() {
        StreamPoll::Item(v) => assert_eq!(v, 10),
        _ => panic!("slot one was ready at last"),
    }
}

#[test]
fn ended_member_is_auto_evicted() {
    let mut group: StreamGroup<i32> = StreamGroup::new();
    group.insert(ScriptedStream::done());
    group.insert(ScriptedStream::once(7));
    assert_eq!(group.len(), 2);
    match group.poll_next() {
        StreamPoll::Item(v) => assert_eq!(v, 7),
        _ => panic!("the second member had an item ready"),
    }
    // the first member signalled "ended" during the pass and was evicted
    // without any remove call
    assert_eq!(group.len(), 1);
    assert!(matches!(group.poll_next(), StreamPoll::Ended));
    assert_eq!(group.len(), 0);
}

#[test]
fn keyed_pairs_items_with_their_keys() {
    let mut group: StreamGroup<i32> = StreamGroup::new();
    let key1 = group.insert(ScriptedStream::once(2));
    let key2 = group.insert(ScriptedStream::once(4));

    let mut keyed = group.keyed();
    let mut out = 0;
    let mut seen = Vec::new();
    loop {
        match keyed.poll_next() {
            StreamPoll::Item((key, num)) => {
                seen.push(key);
                out += num;
            }
            StreamPoll::Pending => {}
            StreamPoll::Ended => break,
        }
    }
    assert_eq!(out, 6);
    assert_eq!(seen, vec![key1, key2]);
    assert_eq!(keyed.len(), 0);
}

#[test]
fn keyed_forwards_membership_operations() {
    let group: StreamGroup<i32> = StreamGroup::new();
    let mut keyed = group.keyed();
    assert!(keyed.is_empty());
    let key = keyed.insert(ScriptedStream::once(3));
    assert_eq!(keyed.len(), 1);
    assert!(keyed.contains_key(key));
    assert!(keyed.remove(key));
    assert!(!keyed.contains_key(key));
    assert_eq!(keyed.len(), 0);
}

#[test]
fn conclude_pass_classifies_outcomes() {
    assert!(matches!(conclude_pass(3, 1, Some(5)), StreamPoll::Item(5)));
    assert!(matches!(conclude_pass::<i32>(3, 3, None), StreamPoll::Ended));
    assert!(matches!(conclude_pass::<i32>(3, 2, None), StreamPoll::Pending));
}
