use race_group::op::{FuturePoll, ScriptedFuture};
use race_group::race::Race;

#[test]
fn no_fairness() {
    let ops = vec![ScriptedFuture::ready("hello"), ScriptedFuture::ready("world")];
    let res = Race::new(ops).race();
    assert_eq!(res, Some("hello"));
}

#[test]
fn thruple() {
    let ops = vec![
        ScriptedFuture::pending(),
        ScriptedFuture::ready("world"),
        ScriptedFuture::ready("hello"),
    ];
    let res = Race::new(ops).race();
    assert_eq!(res, Some("world"));
}

#[test]
fn declaration_order_breaks_ties() {
    // Both participants become ready in the same drive step: the
    // earlier-declared one wins.
    let ops = vec![ScriptedFuture::ready_after(3, 10u32), ScriptedFuture::ready_after(3, 20u32)];
    assert_eq!(Race::new(ops).race(), Some(10));
}

#[test]
fn fewest_steps_wins_regardless_of_position() {
    let ops = vec![
        ScriptedFuture::ready_after(5, 1u32),
        ScriptedFuture::ready_after(2, 2u32),
        ScriptedFuture::ready_after(4, 3u32),
    ];
    assert_eq!(Race::new(ops).race(), Some(2));
}

#[test]
fn pending_participants_never_win() {
    let ops = vec![
        ScriptedFuture::pending(),
        ScriptedFuture::pending(),
        ScriptedFuture::ready_after(7, 9u32),
    ];
    assert_eq!(Race::new(ops).race(), Some(9));
}

#[test]
fn race_of_never_ready_participants_never_completes() {
    let ops: Vec<ScriptedFuture<u32>> = vec![ScriptedFuture::pending(), ScriptedFuture::pending()];
    assert_eq!(Race::new(ops).race(), None);
}

#[test]
fn poll_step_reports_pending_until_ready() {
    let ops = vec![ScriptedFuture::ready_after(2, 'a'), ScriptedFuture::ready_after(1, 'b')];
    let mut race = Race::new(ops);
    assert!(!race.is_done());
    assert!(matches!(race.poll_step(), FuturePoll::Pending));
    assert!(!race.is_done());
    match race.poll_step() {
        FuturePoll::Ready(v) => assert_eq!(v, 'b'),
        FuturePoll::Pending => panic!("second participant was ready this step"),
    }
    // Once the value is out, the combinator is spent: its contract rules out
    // any further drive step.
    assert!(race.is_done());
}
