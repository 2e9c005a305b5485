use parallel_astar::router::ALWAYS_SCATTER;
use parallel_astar::{astar, man_dist, search, AZHasher, Grid, Halt, Router, StateHash, Team, Turn, ZHasher};

fn solved(size: i32) -> Grid {
    let cells = size * size;
    let mut data: Vec<Option<i32>> = (0..cells - 1).map(Some).collect();
    data.push(None);
    Grid::new(data, size, cells - 1)
}

fn team_search<T: StateHash>(start: &Grid, goal: &Grid, count: u32, mut router: Router<T>) -> (Option<(i32, i32, i32)>, u64) {
    let mut team = Team::new(start, goal, count, &man_dist, &mut router);
    let report = team.run(&man_dist, &mut router, 1_000_000);
    let found = report.result.unwrap().map(|n| {
        assert_eq!(n.state, *goal);
        (n.f, n.g, n.h)
    });
    (found, report.expanded)
}

#[test]
fn one_move_away_is_solved_at_cost_one() {
    let goal = solved(3);
    for start in [goal.do_action((-1, 0)), goal.do_action((0, -1))] {
        let report = astar(&start, &goal, man_dist, 1000);
        let n = report.result.unwrap().unwrap();
        assert_eq!(n.state, goal);
        assert_eq!((n.f, n.g, n.h), (1, 1, 0));
        assert_eq!(report.expanded, 1);
        assert_eq!(report.rounds, 2);
    }
}

#[test]
fn one_move_away_is_solved_at_cost_one_by_any_team() {
    let goal = solved(3);
    let start = goal.do_action((-1, 0));
    for count in [1, 2, 3, 4, 8, 16] {
        assert_eq!(team_search(&start, &goal, count, Router::owner(ZHasher::new(3))).0, Some((1, 1, 0)));
        assert_eq!(team_search(&start, &goal, count, Router::owner(AZHasher::new(3))).0, Some((1, 1, 0)));
        for threshold in [0, ALWAYS_SCATTER / 4, ALWAYS_SCATTER] {
            let router: Router<ZHasher> = Router::diffusion(10, threshold);
            assert_eq!(team_search(&start, &goal, count, router).0, Some((1, 1, 0)));
        }
    }
}

#[test]
fn the_goal_itself_is_solved_without_expanding() {
    let goal = solved(3);
    let report = astar(&goal, &goal, man_dist, 10);
    let n = report.result.unwrap().unwrap();
    assert_eq!((n.f, n.g, n.h), (0, 0, 0));
    assert_eq!(report.expanded, 0);
    assert_eq!(report.rounds, 1);
    for count in [1, 2, 8] {
        let (found, expanded) = team_search(&goal, &goal, count, Router::owner(ZHasher::new(3)));
        assert_eq!(found, Some((0, 0, 0)));
        assert_eq!(expanded, 0);
        let router: Router<ZHasher> = Router::diffusion(10, ALWAYS_SCATTER / 2);
        let (found, expanded) = team_search(&goal, &goal, count, router);
        assert_eq!(found, Some((0, 0, 0)));
        assert_eq!(expanded, 0);
    }
}

#[test]
fn a_board_of_the_other_parity_has_no_solution() {
    let goal = solved(2);
    let start = Grid::new(vec![Some(1), Some(0), Some(2), None], 2, 3);
    let report = astar(&start, &goal, man_dist, 10_000);
    assert!(matches!(report.result, Ok(None)));
    assert!(report.expanded >= 12);
    for count in [1, 2, 5] {
        assert_eq!(team_search(&start, &goal, count, Router::owner(ZHasher::new(2))).0, None);
        let router: Router<ZHasher> = Router::diffusion(10, ALWAYS_SCATTER / 2);
        assert_eq!(team_search(&start, &goal, count, router).0, None);
    }
}

#[test]
fn a_search_gives_up_when_its_rounds_are_used() {
    let goal = solved(3);
    let start = goal.rand_actions_with_seed(60, 1);
    assert_ne!(start, goal);
    let report = astar(&start, &goal, man_dist, 1);
    assert_eq!(report.result.unwrap_err(), Halt::OutOfRounds);
    assert_eq!(report.rounds, 1);
    let none = astar(&start, &goal, man_dist, 0);
    assert_eq!(none.result.unwrap_err(), Halt::OutOfRounds);
    assert_eq!(none.rounds, 0);
    let mut router = Router::owner(ZHasher::new(3));
    let mut team = Team::new(&start, &goal, 2, &man_dist, &mut router);
    let report = team.run(&man_dist, &mut router, 1);
    assert_eq!(report.result.unwrap_err(), Halt::OutOfRounds);
    assert!(!team.flag.is_raised());
    assert!(team.incumbent.solution().is_none());
    let report = team.run(&man_dist, &mut router, 1_000_000);
    assert!(report.result.unwrap().is_some());
    assert!(team.flag.is_raised());
}

#[test]
fn one_worker_finds_what_the_baseline_finds() {
    let goal = solved(3);
    for seed in 0..12u64 {
        let start = goal.rand_actions_with_seed(24, seed);
        let base = astar(&start, &goal, man_dist, 1_000_000).result.unwrap().unwrap();
        let (found, _) = team_search(&start, &goal, 1, Router::owner(ZHasher::new(3)));
        assert_eq!(found, Some((base.f, base.g, base.h)), "seed {}", seed);
        assert_eq!(base.f, base.g);
        assert_eq!(base.h, 0);
    }
}

#[test]
fn a_found_cost_is_the_length_of_a_path() {
    let goal = solved(3);
    for seed in 0..6u64 {
        let start = goal.rand_actions_with_seed(30, seed);
        let direct = man_dist(&start, &goal);
        for count in [1, 2, 4, 8] {
            let (found, _) = team_search(&start, &goal, count, Router::owner(ZHasher::new(3)));
            let (f, g, h) = found.unwrap();
            assert_eq!((f, h), (g, 0));
            assert!(g >= 0 && g <= 30 + 2 * 31);
            assert_eq!(g % 2, direct % 2, "each move changes the distance by one");
            assert!(g >= direct);
        }
    }
}

#[test]
fn a_run_gives_the_same_cost_each_time() {
    let goal = solved(3);
    let start = goal.rand_actions_with_seed(40, 3);
    for count in [1, 3, 8] {
        let first = team_search(&start, &goal, count, Router::owner(ZHasher::new(3)));
        for _ in 0..3 {
            assert_eq!(team_search(&start, &goal, count, Router::owner(ZHasher::new(3))), first);
        }
        let router: Router<ZHasher> = Router::diffusion(10, ALWAYS_SCATTER / 2);
        let spread = team_search(&start, &goal, count, router);
        let router: Router<ZHasher> = Router::diffusion(10, ALWAYS_SCATTER / 2);
        assert_eq!(team_search(&start, &goal, count, router), spread);
    }
}

#[test]
fn a_new_team_has_the_start_at_its_owner() {
    let goal = solved(3);
    let start = goal.do_action((-1, 0));
    let hasher = ZHasher::new(3);
    let owner = start.owner(&hasher, 4) as usize;
    let mut router = Router::owner(hasher);
    let team = Team::new(&start, &goal, 4, &man_dist, &mut router);
    assert_eq!(team.workers.len(), 4);
    assert!(!team.flag.is_raised());
    assert!(team.incumbent.solution().is_none());
    assert!(!team.is_quiescent());
    for (i, w) in team.workers.iter().enumerate() {
        assert_eq!(w.id as usize, i);
        assert_eq!(w.workers, 4);
        assert_eq!(w.goal, goal);
        assert!(w.open.is_empty() && w.closed.is_empty());
        assert_eq!(w.inbox.len(), if i == owner { 1 } else { 0 });
    }
    assert_eq!(team.workers[owner].inbox[0].state, start);
    assert_eq!(team.workers[owner].inbox[0].f, 1);
}

#[test]
fn a_turn_tells_what_the_worker_did() {
    let goal = solved(3);
    let start = goal.do_action((-1, 0));
    let hasher = ZHasher::new(3);
    let owner = start.owner(&hasher, 2) as usize;
    let other = 1 - owner;
    let mut router = Router::owner(hasher);
    let mut team = Team::new(&start, &goal, 2, &man_dist, &mut router);
    assert_eq!(team.turn(other, &man_dist, &mut router), Turn::Idle);
    assert_eq!(team.workers[other].log.abort_cnt, 1);
    assert_eq!(team.turn(owner, &man_dist, &mut router), Turn::Expanded);
    let arrived: usize = team.workers.iter().map(|w| w.inbox.len()).sum();
    assert_eq!(arrived, 3);
    assert_eq!(team.workers[owner].log.node_cnt as usize, team.workers[other].inbox.len());
    let goal_owner = goal.owner(&ZHasher::new(3), 2) as usize;
    let mut turns = 0;
    while team.turn(goal_owner, &man_dist, &mut router) != Turn::Solved {
        team.turn(1 - goal_owner, &man_dist, &mut router);
        turns += 1;
        assert!(turns < 100);
    }
    assert!(team.flag.is_raised());
    assert_eq!(team.incumbent.f(), 1);
    assert_eq!(team.turn(0, &man_dist, &mut router), Turn::Stopped);
    assert_eq!(team.turn(1, &man_dist, &mut router), Turn::Stopped);
    team.workers[0].log.iter_cnt = i32::MAX;
    assert_eq!(team.turn(0, &man_dist, &mut router), Turn::Worn);
}

fn nearly_endless(from: &Grid, to: &Grid) -> i32 {
    if man_dist(from, to) == 1 {
        0
    } else {
        i32::MAX
    }
}

#[test]
fn a_cost_that_is_no_i32_ends_the_search() {
    let goal = solved(3);
    let start = goal.do_action((-1, 0));
    let report = astar(&start, &goal, nearly_endless, 100);
    assert_eq!(report.result.unwrap_err(), Halt::CostOverflow);
    assert_eq!(report.rounds, 1);
    assert_eq!(report.expanded, 0);
    let mut router = Router::owner(ZHasher::new(3));
    let report = search(&start, &goal, &nearly_endless, 3, &mut router, 100);
    assert_eq!(report.result.unwrap_err(), Halt::CostOverflow);
    let mut team = Team::new(&start, &goal, 1, &nearly_endless, &mut router);
    assert_eq!(team.turn(0, &nearly_endless, &mut router), Turn::Overflow);
}

#[test]
fn search_is_a_team_from_start_to_end() {
    let goal = solved(3);
    let start = goal.rand_actions_with_seed(30, 9);
    let base = astar(&start, &goal, man_dist, 1_000_000).result.unwrap().unwrap();
    for count in [1, 2, 7] {
        let mut router = Router::owner(ZHasher::new(3));
        let report = search(&start, &goal, &man_dist, count, &mut router, 1_000_000);
        let n = report.result.unwrap().unwrap();
        assert_eq!(n.state, goal);
        assert_eq!((n.f, n.h), (n.g, 0));
        assert_eq!(n.g % 2, base.g % 2);
        assert!(report.expanded > 0);
    }
    let mut router = Router::owner(ZHasher::new(2));
    let odd = Grid::new(vec![Some(1), Some(0), Some(2), None], 2, 3);
    let report = search(&odd, &solved(2), &man_dist, 3, &mut router, 1_000_000);
    assert!(matches!(report.result, Ok(None)));
    let report = search(&start, &goal, &man_dist, 3, &mut Router::owner(ZHasher::new(3)), 0);
    assert_eq!(report.result.unwrap_err(), Halt::OutOfRounds);
    assert_eq!(report.rounds, 0);
}

#[test]
fn a_harder_board_is_solved_by_all_searches() {
    let goal = solved(4);
    let start = goal.rand_actions_with_seed(60, 4);
    let base = astar(&start, &goal, man_dist, 10_000_000).result.unwrap().unwrap();
    assert_eq!(base.state, goal);
    assert!(base.g > 0 && base.g <= 60);
    for count in [1, 4] {
        let (found, _) = team_search(&start, &goal, count, Router::owner(ZHasher::new(4)));
        let (f, g, h) = found.unwrap();
        assert_eq!((f, h), (g, 0));
        assert!(g > 0 && g % 2 == base.g % 2);
        let (found, _) = team_search(&start, &goal, count, Router::owner(AZHasher::new(4)));
        assert!(found.is_some());
    }
}

fn no_estimate(_: &Grid, _: &Grid) -> i32 {
    0
}

fn tiles_apart(from: &Grid, to: &Grid) -> i32 {
    let mut sum = 0;
    for (i, cell) in from.data.iter().enumerate() {
        if cell.is_some() {
            let j = to.data.iter().position(|c| c == cell).unwrap();
            let (x1, y1) = from.get_coord(i as i32);
            let (x2, y2) = to.get_coord(j as i32);
            sum += (x1 - x2).abs() + (y1 - y2).abs();
        }
    }
    sum
}

fn distance_by_levels(start: &Grid, goal: &Grid) -> i32 {
    let mut seen = vec![start.clone()];
    let mut level = vec![start.clone()];
    let mut depth = 0;
    loop {
        if level.iter().any(|b| b == goal) {
            return depth;
        }
        let mut next = Vec::new();
        for board in &level {
            for succ in board.expand() {
                if !seen.contains(&succ) {
                    seen.push(succ.clone());
                    next.push(succ);
                }
            }
        }
        assert!(!next.is_empty());
        level = next;
        depth += 1;
    }
}

#[test]
fn a_consistent_estimate_gives_a_shortest_path() {
    let goal = solved(3);
    for seed in 0..8u64 {
        let start = goal.rand_actions_with_seed(14, seed);
        let want = distance_by_levels(&start, &goal);
        let plain = astar(&start, &goal, no_estimate, 10_000_000).result.unwrap().unwrap();
        assert_eq!((plain.f, plain.g, plain.h), (want, want, 0), "seed {}", seed);
        let guided = astar(&start, &goal, tiles_apart, 10_000_000).result.unwrap().unwrap();
        assert_eq!((guided.f, guided.g, guided.h), (want, want, 0), "seed {}", seed);
        let mut router = Router::owner(ZHasher::new(3));
        let one = search(&start, &goal, &tiles_apart, 1, &mut router, 10_000_000);
        assert_eq!(one.result.unwrap().unwrap().g, want, "seed {}", seed);
    }
}

#[test]
fn several_workers_may_report_a_longer_path() {
    let goal = solved(3);
    let start = Grid::new(
        vec![Some(0), Some(1), Some(2), Some(3), None, Some(7), Some(6), Some(5), Some(4)],
        3,
        4,
    );
    let best = astar(&start, &goal, tiles_apart, 10_000_000).result.unwrap().unwrap();
    assert_eq!(best.g, 6);
    assert_eq!(distance_by_levels(&start, &goal), 6);
    let mut router: Router<ZHasher> = Router::diffusion(10, ALWAYS_SCATTER / 2);
    let team = search(&start, &goal, &tiles_apart, 4, &mut router, 10_000_000).result.unwrap().unwrap();
    assert_eq!(team.state, goal);
    assert_eq!((team.f, team.g, team.h), (8, 8, 0));
}

#[test]
fn the_searches_find_a_shortest_path_with_the_manhattan_estimate() {
    let goal = solved(3);
    let two = goal.do_action((-1, 0)).do_action((0, -1));
    let n = astar(&two, &goal, man_dist, 1_000).result.unwrap().unwrap();
    assert_eq!((n.f, n.g, n.h), (2, 2, 0));
    let mut router = Router::owner(ZHasher::new(3));
    let m = search(&two, &goal, &man_dist, 1, &mut router, 1_000).result.unwrap().unwrap();
    assert_eq!((m.f, m.g, m.h), (2, 2, 0));
    assert_eq!(m.state, n.state);
    for seed in 0..8u64 {
        let start = goal.rand_actions_with_seed(16, seed);
        let want = distance_by_levels(&start, &goal);
        let got = astar(&start, &goal, man_dist, 10_000_000).result.unwrap().unwrap();
        assert_eq!((got.f, got.g, got.h), (want, want, 0), "seed {}", seed);
    }
}

fn small_boards() -> Vec<Grid> {
    let cells = [Some(0), Some(1), Some(2), None];
    let mut boards = Vec::new();
    for a in 0..4 {
        for b in 0..4 {
            for c in 0..4 {
                for d in 0..4 {
                    let picks = [a, b, c, d];
                    if (0..4).all(|v| picks.iter().filter(|&&p| p == v).count() == 1) {
                        let data: Vec<Option<i32>> = picks.iter().map(|&p| cells[p]).collect();
                        let blank = data.iter().position(|c| c.is_none()).unwrap() as i32;
                        boards.push(Grid::new(data, 2, blank));
                    }
                }
            }
        }
    }
    boards
}

#[test]
fn one_worker_ends_within_a_round_more_than_the_boards_and_one() {
    let goal = solved(2);
    let boards = small_boards();
    assert_eq!(boards.len(), 24);
    let mut found = 0;
    let mut none = 0;
    for start in boards.iter() {
        let mut router = Router::owner(ZHasher::new(2));
        let report = search(start, &goal, &man_dist, 1, &mut router, 14);
        match report.result {
            Ok(Some(n)) => {
                found += 1;
                assert_eq!(n.state, goal);
                assert_eq!(n.h, 0);
                assert_eq!(n.f, n.g);
                let base = astar(start, &goal, man_dist, 1_000).result.unwrap().unwrap();
                assert_eq!((n.f, n.g, n.h), (base.f, base.g, base.h));
            }
            Ok(None) => {
                none += 1;
                assert!(matches!(astar(start, &goal, man_dist, 1_000).result, Ok(None)));
                let mut router = Router::owner(ZHasher::new(2));
                let short = search(start, &goal, &man_dist, 1, &mut router, 13);
                assert!(matches!(short.result, Err(Halt::OutOfRounds)));
            }
            Err(_) => panic!("the rounds were enough"),
        }
    }
    assert_eq!((found, none), (12, 12));
}

#[test]
fn the_h_of_an_answer_is_the_estimate_of_the_goal() {
    let goal = solved(3);
    let start = goal.rand_actions_with_seed(16, 5);
    for count in [1, 2, 4] {
        let mut router = Router::owner(ZHasher::new(3));
        let n = search(&start, &goal, &no_estimate, count, &mut router, 1_000_000).result.unwrap().unwrap();
        assert_eq!(n.h, no_estimate(&goal, &goal));
        assert_eq!(n.f, n.g + n.h);
        let mut router = Router::owner(ZHasher::new(3));
        let n = search(&start, &goal, &man_dist, count, &mut router, 1_000_000).result.unwrap().unwrap();
        assert_eq!(n.h, 0);
    }
}

#[test]
fn one_worker_finds_a_near_goal_within_as_many_rounds_as_boards_on_the_way() {
    let goal = solved(3);
    let near = goal.do_action((-1, 0));
    let mut router = Router::owner(ZHasher::new(3));
    let report = search(&near, &goal, &man_dist, 1, &mut router, 2);
    let n = report.result.unwrap().unwrap();
    assert_eq!((n.f, n.g, n.h), (1, 1, 0));
    assert_eq!(report.rounds, 1);
    assert_eq!(report.expanded, 1);
    let mut router = Router::owner(ZHasher::new(3));
    let short = search(&near, &goal, &man_dist, 1, &mut router, 1);
    assert!(matches!(short.result, Err(Halt::OutOfRounds)));

    let further = near.do_action((0, -1));
    assert_eq!(man_dist(&further, &goal), 2);
    let mut router = Router::owner(ZHasher::new(3));
    let report = search(&further, &goal, &man_dist, 1, &mut router, 4);
    let n = report.result.unwrap().unwrap();
    assert_eq!((n.f, n.g, n.h), (2, 2, 0));
    assert!(report.expanded <= 3);
}
