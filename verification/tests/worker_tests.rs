use parallel_astar::{man_dist, Grid, Log, Node, Outcome, Phase, Router, Worker, ZHasher};

fn solved(size: i32) -> Grid {
    let cells = size * size;
    let mut data: Vec<Option<i32>> = (0..cells - 1).map(Some).collect();
    data.push(None);
    Grid::new(data, size, cells - 1)
}

fn node(state: &Grid, f: i32, g: i32) -> Node {
    Node { state: state.clone(), f, g, h: f - g }
}

fn lone(goal: &Grid) -> (Worker, Router<ZHasher>) {
    (Worker::new(0, 1, goal.clone()), Router::owner(ZHasher::new(goal.size)))
}

#[test]
fn a_new_worker_knows_nothing() {
    let w = Worker::new(2, 4, solved(3));
    assert_eq!(w.id, 2);
    assert_eq!(w.workers, 4);
    assert_eq!(w.goal, solved(3));
    assert!(w.open.is_empty());
    assert!(w.closed.is_empty());
    assert!(w.queue.is_empty());
    assert!(w.inbox.is_empty());
    assert_eq!(w.log, Log { iter_cnt: 0, node_cnt: 0, abort_cnt: 0 });
}

#[test]
fn begin_counts_the_round_and_polls_every_other_one() {
    let mut w = Worker::new(0, 1, solved(3));
    assert_eq!(w.begin(false), Phase::Proceed);
    assert_eq!(w.log.iter_cnt, 1);
    assert_eq!(w.begin(false), Phase::Poll);
    assert_eq!(w.begin(false), Phase::Proceed);
    assert_eq!(w.begin(false), Phase::Poll);
    assert_eq!(w.begin(true), Phase::Stop);
    assert_eq!(w.log.iter_cnt, 5);
    assert_eq!(w.begin(true), Phase::Stop);
    assert_eq!(w.log.iter_cnt, 6);
}

#[test]
fn a_node_for_an_unknown_board_is_opened() {
    let goal = solved(3);
    let s = goal.do_action((-1, 0));
    let mut w = Worker::new(0, 1, goal);
    w.merge_node(node(&s, 9, 4));
    assert_eq!(w.open.get(&s), Some(9));
    assert_eq!(w.closed.get(&s), None);
    assert_eq!(w.queue.len(), 1);
}

#[test]
fn a_node_no_cheaper_than_the_open_one_is_dropped() {
    let goal = solved(3);
    let s = goal.do_action((-1, 0));
    let mut w = Worker::new(0, 1, goal);
    w.merge_node(node(&s, 9, 4));
    w.merge_node(node(&s, 9, 4));
    w.merge_node(node(&s, 10, 5));
    assert_eq!(w.open.get(&s), Some(9));
    assert_eq!(w.queue.len(), 1);
    w.merge_node(node(&s, 8, 3));
    assert_eq!(w.open.get(&s), Some(8));
    assert_eq!(w.queue.len(), 2);
}

#[test]
fn a_closed_board_is_reopened_only_by_a_strictly_lower_g() {
    let goal = solved(3);
    let s = goal.do_action((-1, 0));
    let mut w = Worker::new(0, 1, goal);
    w.merge_node(node(&s, 7, 5));
    let picked = w.select(i32::MAX).unwrap();
    assert_eq!(picked.state, s);
    assert_eq!(w.closed.get(&s), Some(5));
    assert_eq!(w.open.get(&s), None);
    w.merge_node(node(&s, 7, 5));
    w.merge_node(node(&s, 8, 6));
    w.merge_node(node(&s, 100, 98));
    assert_eq!(w.closed.get(&s), Some(5));
    assert_eq!(w.open.get(&s), None);
    assert!(w.queue.is_empty());
    assert!(w.select(i32::MAX).is_none());
    w.merge_node(node(&s, 6, 4));
    assert_eq!(w.closed.get(&s), None);
    assert_eq!(w.open.get(&s), Some(6));
    let again = w.select(i32::MAX).unwrap();
    assert_eq!((again.f, again.g), (6, 4));
    assert_eq!(w.closed.get(&s), Some(4));
}

#[test]
fn merge_takes_all_that_has_arrived() {
    let goal = solved(3);
    let a = goal.do_action((-1, 0));
    let b = goal.do_action((0, -1));
    let mut w = Worker::new(0, 1, goal);
    w.receive(node(&a, 9, 4));
    w.receive(node(&b, 5, 2));
    w.receive(node(&a, 7, 2));
    assert_eq!(w.inbox.len(), 3);
    assert!(w.open.is_empty());
    w.merge();
    assert!(w.inbox.is_empty());
    assert_eq!(w.open.get(&a), Some(7));
    assert_eq!(w.open.get(&b), Some(5));
    assert!(!w.open.is_empty());
}

#[test]
fn select_is_idle_without_open_boards() {
    let mut w = Worker::new(0, 1, solved(3));
    assert!(w.select(i32::MAX).is_none());
    assert!(w.select(0).is_none());
    assert_eq!(w.log.abort_cnt, 2);
    assert_eq!(w.log.iter_cnt, 0);
}

#[test]
fn select_is_idle_where_the_bound_is_reached() {
    let goal = solved(3);
    let s = goal.do_action((-1, 0));
    let mut w = Worker::new(0, 1, goal);
    w.merge_node(node(&s, 9, 4));
    assert!(w.select(9).is_none());
    assert!(w.select(3).is_none());
    assert_eq!(w.log.abort_cnt, 2);
    assert_eq!(w.open.get(&s), Some(9));
    assert_eq!(w.queue.len(), 1);
    let n = w.select(10).unwrap();
    assert_eq!((n.f, n.g), (9, 4));
    assert_eq!(w.log.abort_cnt, 2);
}

#[test]
fn select_picks_the_cheapest_and_skips_what_is_out_of_date() {
    let goal = solved(3);
    let a = goal.do_action((-1, 0));
    let b = goal.do_action((0, -1));
    let c = a.do_action((-1, 0));
    let mut w = Worker::new(0, 1, goal);
    w.merge_node(node(&a, 9, 4));
    w.merge_node(node(&b, 6, 3));
    w.merge_node(node(&c, 8, 5));
    w.merge_node(node(&a, 5, 0));
    let first = w.select(i32::MAX).unwrap();
    assert_eq!(first.state, a);
    assert_eq!((first.f, first.g), (5, 0));
    let second = w.select(i32::MAX).unwrap();
    assert_eq!(second.state, b);
    let third = w.select(i32::MAX).unwrap();
    assert_eq!(third.state, c);
    assert_eq!(w.queue.len(), 1);
    assert!(w.open.is_empty());
    assert!(w.select(i32::MAX).is_none());
    assert_eq!(w.closed.get(&a), Some(0));
    assert_eq!(w.closed.get(&b), Some(3));
    assert_eq!(w.closed.get(&c), Some(5));
    assert_eq!(w.queue.len(), 1);
}

#[test]
fn a_node_at_another_f_than_the_open_one_is_out_of_date() {
    let goal = solved(3);
    let a = goal.do_action((-1, 0));
    let mut w = Worker::new(0, 1, goal);
    w.merge_node(node(&a, 9, 4));
    w.merge_node(node(&a, 5, 0));
    let first = w.select(i32::MAX).unwrap();
    assert_eq!(first.f, 5);
    w.merge_node(node(&a, 4, -1));
    assert_eq!(w.queue.len(), 2);
    let second = w.select(i32::MAX).unwrap();
    assert_eq!(second.f, 4);
    assert_eq!(w.queue.len(), 1);
    assert!(w.select(i32::MAX).is_none());
}

#[test]
fn seed_puts_the_start_node_in_the_inbox() {
    let goal = solved(3);
    let start = goal.do_action((-1, 0));
    let mut w = Worker::new(0, 1, goal);
    w.seed(start.clone(), &man_dist);
    assert_eq!(w.inbox.len(), 1);
    assert_eq!(w.inbox[0].state, start);
    assert_eq!((w.inbox[0].f, w.inbox[0].g, w.inbox[0].h), (1, 0, 1));
}

#[test]
fn spread_keeps_its_own_and_sends_the_rest() {
    let goal = solved(3);
    let centre = goal.do_action((-1, 0)).do_action((0, -1));
    let hasher = ZHasher::new(3);
    let owners: Vec<u32> = centre.expand().iter().map(|s| s.owner(&hasher, 3)).collect();
    let mut w = Worker::new(1, 3, goal.clone());
    let mut router = Router::owner(ZHasher::new(3));
    let parent = node(&centre, 6, 2);
    let out = w.spread(&parent, &man_dist, &mut router).unwrap();
    let kept = owners.iter().filter(|&&o| o == 1).count();
    assert_eq!(w.inbox.len(), kept);
    assert_eq!(out.len(), 4 - kept);
    assert_eq!(w.log.node_cnt, (4 - kept) as i32);
    let mut sent = out.iter();
    let mut own = w.inbox.iter();
    for (state, owner) in centre.expand().iter().zip(owners.iter()) {
        let child = if *owner == 1 {
            own.next().unwrap()
        } else {
            let (dest, child) = sent.next().unwrap();
            assert_eq!(dest, owner);
            child
        };
        assert_eq!(child.state, *state);
        assert_eq!(child.g, 3);
        assert_eq!(child.h, man_dist(state, &goal));
        assert_eq!(child.f, child.g + child.h);
    }
    assert!(w.open.is_empty() && w.closed.is_empty() && w.queue.is_empty());
}

#[test]
fn a_round_reports_the_goal_and_does_not_expand_it() {
    let goal = solved(3);
    let (mut w, mut router) = lone(&goal);
    w.seed(goal.clone(), &man_dist);
    match w.advance(i32::MAX, &man_dist, &mut router) {
        Outcome::Goal(n) => {
            assert_eq!(n.state, goal);
            assert_eq!((n.f, n.g, n.h), (0, 0, 0));
        }
        other => panic!("{:?}", other),
    }
    assert!(w.inbox.is_empty());
    assert!(w.open.is_empty());
    assert_eq!(w.closed.get(&goal), Some(0));
    assert_eq!(w.log.node_cnt, 0);
}

#[test]
fn a_round_expands_what_is_not_the_goal() {
    let goal = solved(3);
    let start = goal.do_action((-1, 0));
    let (mut w, mut router) = lone(&goal);
    w.seed(start.clone(), &man_dist);
    match w.advance(i32::MAX, &man_dist, &mut router) {
        Outcome::Expanded(out) => assert!(out.is_empty()),
        other => panic!("{:?}", other),
    }
    assert_eq!(w.inbox.len(), 3);
    assert_eq!(w.closed.get(&start), Some(0));
    match w.advance(i32::MAX, &man_dist, &mut router) {
        Outcome::Goal(n) => assert_eq!((n.f, n.g, n.h), (1, 1, 0)),
        other => panic!("{:?}", other),
    }
}

#[test]
fn a_round_is_idle_under_a_bound_that_is_reached() {
    let goal = solved(3);
    let start = goal.do_action((-1, 0));
    let (mut w, mut router) = lone(&goal);
    w.seed(start.clone(), &man_dist);
    assert!(matches!(w.advance(1, &man_dist, &mut router), Outcome::Idle));
    assert_eq!(w.log.abort_cnt, 1);
    assert_eq!(w.open.get(&start), Some(1));
    assert!(matches!(w.advance(2, &man_dist, &mut router), Outcome::Expanded(_)));
}

#[test]
fn a_round_stops_at_a_cost_that_overflows() {
    let goal = solved(3);
    let start = goal.do_action((-1, 0));
    let (mut w, mut router) = lone(&goal);
    w.receive(Node { state: start.clone(), f: i32::MAX - 1, g: i32::MAX - 1, h: 0 });
    match w.advance(i32::MAX, &man_dist, &mut router) {
        Outcome::Overflow(n) => assert_eq!(n.state, start),
        other => panic!("{:?}", other),
    }
}
