use blame_tally::accumulator::{Accumulator, Message, Violation};
use blame_tally::control::{
    worker_step, CancellationToken, RetryAction, RetryPolicy, WorkerAction, WorkerState,
};
use blame_tally::rank::{author_le, hm_into_vec, ranks_before};
use blame_tally::tally::{
    blame_acc, blame_fold, find_author, fold_fits, sum_lines, tally_all, Blame,
};
use blame_tally::walk::{attribute_hunks, EntryKind, Hunk, TreeWalker};

fn row(a: &str, n: usize) -> Blame {
    Blame { author: a.to_string(), lines: n }
}

fn pairs(v: &[Blame]) -> Vec<(String, usize)> {
    v.iter().map(|b| (b.author.clone(), b.lines)).collect()
}

fn lookup(v: &[Blame], a: &str) -> Option<usize> {
    v.iter().find(|b| b.author == a).map(|b| b.lines)
}

fn scenario_maps() -> Vec<Vec<Blame>> {
    vec![
        vec![row("alice", 10)],
        vec![row("bob", 5), row("alice", 2)],
        vec![row("alice", 1)],
    ]
}

fn expected_scenario() -> Vec<(String, usize)> {
    vec![("alice".to_string(), 13), ("bob".to_string(), 5)]
}

#[test]
fn three_files_sequential() {
    let t = tally_all(scenario_maps()).unwrap();
    assert_eq!(pairs(&hm_into_vec(&t)), expected_scenario());
}

#[test]
fn three_files_concurrent_count_first() {
    let mut acc = Accumulator::new();
    assert_eq!(acc.receive(Message::Count(3)), Ok(false));
    let mut maps = scenario_maps();
    maps.reverse();
    let n = maps.len();
    for (i, m) in maps.into_iter().enumerate() {
        assert_eq!(acc.receive(Message::Partial(m)), Ok(i + 1 == n));
    }
    assert!(acc.is_complete());
    assert_eq!(acc.consumed(), 3);
    assert_eq!(pairs(&acc.finish()), expected_scenario());
}

#[test]
fn count_arriving_last_completes_the_run() {
    let mut acc = Accumulator::new();
    for m in scenario_maps() {
        assert_eq!(acc.receive(Message::Partial(m)), Ok(false));
    }
    assert!(!acc.is_complete());
    assert_eq!(acc.receive(Message::Count(3)), Ok(true));
    assert_eq!(pairs(&acc.finish()), expected_scenario());
}

#[test]
fn count_arriving_between_partials() {
    let mut acc = Accumulator::new();
    let mut maps = scenario_maps().into_iter();
    assert_eq!(acc.receive(Message::Partial(maps.next().unwrap())), Ok(false));
    assert_eq!(acc.receive(Message::Count(3)), Ok(false));
    assert_eq!(acc.receive(Message::Partial(maps.next().unwrap())), Ok(false));
    assert_eq!(acc.receive(Message::Partial(maps.next().unwrap())), Ok(true));
    assert_eq!(pairs(&acc.finish()), expected_scenario());
}

#[test]
fn empty_snapshot_completes_on_count_zero() {
    let mut acc = Accumulator::new();
    assert!(!acc.is_complete());
    assert_eq!(acc.receive(Message::Count(0)), Ok(true));
    assert!(acc.finish().is_empty());
}

#[test]
fn duplicate_count_is_a_violation() {
    let mut acc = Accumulator::new();
    assert_eq!(acc.receive(Message::Count(2)), Ok(false));
    assert_eq!(acc.receive(Message::Count(2)), Err(Violation::DuplicateCount));
    assert_eq!(acc.receive(Message::Partial(vec![row("a", 1)])), Ok(false));
    assert_eq!(acc.receive(Message::Partial(vec![row("a", 1)])), Ok(true));
}

#[test]
fn count_below_received_is_a_violation() {
    let mut acc = Accumulator::new();
    assert_eq!(acc.receive(Message::Partial(vec![row("a", 1)])), Ok(false));
    assert_eq!(acc.receive(Message::Partial(vec![row("b", 1)])), Ok(false));
    assert_eq!(acc.receive(Message::Count(1)), Err(Violation::CountBelowReceived));
    assert!(!acc.is_complete());
    assert_eq!(acc.receive(Message::Count(2)), Ok(true));
}

#[test]
fn messages_after_completion_are_violations() {
    let mut acc = Accumulator::new();
    assert_eq!(acc.receive(Message::Count(1)), Ok(false));
    assert_eq!(acc.receive(Message::Partial(vec![row("a", 4)])), Ok(true));
    assert_eq!(
        acc.receive(Message::Partial(vec![row("a", 4)])),
        Err(Violation::AfterCompletion)
    );
    assert_eq!(acc.record_drop(), Err(Violation::AfterCompletion));
    assert_eq!(pairs(&acc.finish()), vec![("a".to_string(), 4)]);
}

#[test]
fn overflowing_partial_is_refused_and_tally_kept() {
    let mut acc = Accumulator::new();
    assert_eq!(acc.receive(Message::Partial(vec![row("a", usize::MAX)])), Ok(false));
    assert_eq!(
        acc.receive(Message::Partial(vec![row("a", 1)])),
        Err(Violation::TallyOverflow)
    );
    assert_eq!(acc.consumed(), 1);
    assert_eq!(acc.receive(Message::Partial(vec![row("b", 1)])), Ok(false));
    assert_eq!(acc.receive(Message::Count(2)), Ok(true));
    assert_eq!(
        pairs(&acc.finish()),
        vec![("a".to_string(), usize::MAX), ("b".to_string(), 1)]
    );
}

#[test]
fn dropped_partials_count_towards_completion() {
    let mut acc = Accumulator::new();
    assert_eq!(acc.receive(Message::Count(3)), Ok(false));
    assert_eq!(acc.receive(Message::Partial(vec![row("a", 2)])), Ok(false));
    assert_eq!(acc.record_drop(), Ok(false));
    assert_eq!(acc.record_drop(), Ok(true));
    assert_eq!(acc.dropped(), 2);
    assert_eq!(acc.consumed(), 1);
    assert_eq!(pairs(&acc.finish()), vec![("a".to_string(), 2)]);
}

#[test]
fn skipped_item_as_empty_partial() {
    let mut acc = Accumulator::new();
    assert_eq!(acc.receive(Message::Count(2)), Ok(false));
    assert_eq!(acc.receive(Message::Partial(Vec::new())), Ok(false));
    assert_eq!(acc.receive(Message::Partial(vec![row("z", 7)])), Ok(true));
    assert_eq!(pairs(&acc.finish()), vec![("z".to_string(), 7)]);
}

#[test]
fn modes_agree_on_permuted_input() {
    let seq = hm_into_vec(&tally_all(scenario_maps()).unwrap());
    let mut acc = Accumulator::new();
    let mut maps = scenario_maps();
    maps.swap(0, 2);
    maps.swap(0, 1);
    for m in maps {
        acc.receive(Message::Partial(m)).unwrap();
    }
    assert_eq!(acc.receive(Message::Count(3)), Ok(true));
    assert_eq!(pairs(&acc.finish()), pairs(&seq));
}

#[test]
fn fold_sums_per_author() {
    let mut hm = vec![row("a", 1), row("b", 2)];
    blame_acc(&mut hm, vec![row("b", 3), row("c", 4), row("c", 5)]);
    assert_eq!(lookup(&hm, "a"), Some(1));
    assert_eq!(lookup(&hm, "b"), Some(5));
    assert_eq!(lookup(&hm, "c"), Some(9));
    assert_eq!(hm.len(), 3);
    let r = blame_fold(hm, vec![row("a", 10)]);
    assert_eq!(lookup(&r, "a"), Some(11));
    assert_eq!(r.len(), 3);
}

#[test]
fn fold_order_does_not_matter() {
    let p = vec![row("x", 3), row("y", 1)];
    let q = vec![row("y", 6), row("z", 2)];
    let a = blame_fold(blame_fold(Vec::new(), p), q);
    let p = vec![row("x", 3), row("y", 1)];
    let q = vec![row("y", 6), row("z", 2)];
    let b = blame_fold(blame_fold(Vec::new(), q), p);
    assert_eq!(pairs(&hm_into_vec(&a)), pairs(&hm_into_vec(&b)));
    assert_eq!(lookup(&a, "y"), Some(7));
}

#[test]
fn fits_check_and_sums() {
    let t = vec![row("a", usize::MAX - 1)];
    assert!(fold_fits(&t, &vec![row("a", 1)]));
    assert!(!fold_fits(&t, &vec![row("a", 1), row("a", 1)]));
    assert!(fold_fits(&t, &vec![row("b", usize::MAX)]));
    assert_eq!(sum_lines(&vec![row("a", 2), row("b", 3), row("a", 4)], &"a".to_string()), Some(6));
    assert_eq!(sum_lines(&vec![row("a", usize::MAX), row("a", 1)], &"a".to_string()), None);
    assert_eq!(find_author(&vec![row("a", 1), row("b", 2)], &"b".to_string()), Some(1));
    assert_eq!(find_author(&vec![row("a", 1)], &"c".to_string()), None);
}

#[test]
fn tally_all_reports_overflow() {
    assert!(tally_all(vec![vec![row("a", usize::MAX)], vec![row("a", 1)]]).is_none());
    assert!(tally_all(Vec::new()).unwrap().is_empty());
}

#[test]
fn ranking_orders_by_lines_then_author() {
    let t = vec![row("carol", 5), row("bob", 9), row("alice", 5), row("dave", 0)];
    assert_eq!(
        pairs(&hm_into_vec(&t)),
        vec![
            ("bob".to_string(), 9),
            ("alice".to_string(), 5),
            ("carol".to_string(), 5),
            ("dave".to_string(), 0)
        ]
    );
    assert!(hm_into_vec(&Vec::new()).is_empty());
}

#[test]
fn ranking_adjacent_pairs_hold_the_order() {
    let t = vec![row("e", 1), row("d", 3), row("c", 3), row("b", 2), row("a", 3), row("f", 1)];
    let r = hm_into_vec(&t);
    assert_eq!(r.len(), t.len());
    for w in r.windows(2) {
        assert!(w[0].lines >= w[1].lines);
        if w[0].lines == w[1].lines {
            assert!(w[0].author <= w[1].author);
        }
        assert!(ranks_before(&w[0], &w[1]));
    }
}

#[test]
fn author_order_is_lexicographic() {
    let s = |x: &str| x.to_string();
    assert!(author_le(&s("alice"), &s("bob")));
    assert!(!author_le(&s("bob"), &s("alice")));
    assert!(author_le(&s("al"), &s("alice")));
    assert!(!author_le(&s("alice"), &s("al")));
    assert!(author_le(&s("same"), &s("same")));
    assert!(author_le(&s(""), &s("x")));
    assert!(author_le(&s("Zed"), &s("adam")));
    assert!(author_le(&s("z"), &s("é")));
    assert!(!author_le(&s("é"), &s("z")));
}

#[test]
fn retry_gives_up_after_budget() {
    let mut p = RetryPolicy::new(2);
    assert_eq!(p.after_attempt(false), RetryAction::Wait);
    assert_eq!(p.after_attempt(false), RetryAction::Wait);
    assert_eq!(p.after_attempt(false), RetryAction::GiveUp);
    assert_eq!(p.remaining, 0);
}

#[test]
fn retry_delivers_on_first_success() {
    let mut p = RetryPolicy::new(2);
    assert_eq!(p.after_attempt(false), RetryAction::Wait);
    assert_eq!(p.after_attempt(true), RetryAction::Delivered);
    assert_eq!(p.remaining, 1);
    let mut q = RetryPolicy::new(0);
    assert_eq!(q.after_attempt(true), RetryAction::Delivered);
    let mut r = RetryPolicy::new(0);
    assert_eq!(r.after_attempt(false), RetryAction::GiveUp);
}

#[test]
fn drop_accounting_over_a_batch() {
    // Budget of one retry; each delivery sees its attempts fail or succeed.
    let sends = vec![vec![false, false], vec![true], vec![false, true], vec![false, false]];
    let mut delivered = 0;
    let mut dropped = 0;
    for outcomes in &sends {
        let mut p = RetryPolicy::new(1);
        for &sent in outcomes {
            match p.after_attempt(sent) {
                RetryAction::Delivered => delivered += 1,
                RetryAction::GiveUp => dropped += 1,
                RetryAction::Wait => {}
            }
        }
    }
    assert_eq!(dropped, 2);
    assert_eq!(delivered, 2);
}

#[test]
fn worker_stops_once_cancelled() {
    let (s, a) = worker_step(WorkerState::Running, false);
    assert_eq!((s, a), (WorkerState::Running, WorkerAction::TakeItem));
    let (s, a) = worker_step(s, true);
    assert_eq!((s, a), (WorkerState::Stopped, WorkerAction::Stop));
    let (s, a) = worker_step(s, false);
    assert_eq!((s, a), (WorkerState::Stopped, WorkerAction::Stop));
}

#[test]
fn cancellation_token_is_shared_and_sticky() {
    let t = CancellationToken::new();
    let u = t.clone();
    assert!(!t.is_cancelled());
    u.cancel();
    assert!(t.is_cancelled());
    t.cancel();
    assert!(u.is_cancelled());
}

#[test]
fn walker_emits_files_only() {
    let mut w = TreeWalker::new();
    let root = String::new();
    let sub = "src/".to_string();
    assert_eq!(w.visit(&root, &"src".to_string(), EntryKind::Directory), None);
    assert_eq!(w.visit(&sub, &"lib.rs".to_string(), EntryKind::File), Some("src/lib.rs".to_string()));
    assert_eq!(w.visit(&root, &"README".to_string(), EntryKind::File), Some("README".to_string()));
    assert_eq!(w.visit(&root, &"module".to_string(), EntryKind::Other), None);
    assert_eq!(w.count(), 2);
}

#[test]
fn hunks_fold_per_author_with_unknown() {
    let hunks = vec![
        Hunk { email: Some("a@x".to_string()), lines: 3 },
        Hunk { email: None, lines: 2 },
        Hunk { email: Some("a@x".to_string()), lines: 4 },
        Hunk { email: None, lines: 1 },
    ];
    let t = attribute_hunks(&hunks).unwrap();
    assert_eq!(t.len(), 2);
    assert_eq!(lookup(&t, "a@x"), Some(7));
    assert_eq!(lookup(&t, "unknown"), Some(3));
    assert!(attribute_hunks(&Vec::new()).unwrap().is_empty());
    let big = vec![
        Hunk { email: None, lines: usize::MAX },
        Hunk { email: None, lines: 1 },
    ];
    assert!(attribute_hunks(&big).is_none());
}
