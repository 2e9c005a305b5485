use parallel_astar::corpus::{gen_round, gen_starts, next_steps};
use parallel_astar::{man_dist, Grid};

fn solved(size: i32) -> Grid {
    let cells = size * size;
    let mut data: Vec<Option<i32>> = (0..cells - 1).map(Some).collect();
    data.push(None);
    Grid::new(data, size, cells - 1)
}

fn is_shuffled(g: &Grid) -> bool {
    let cells = (g.size * g.size) as usize;
    let mut seen = vec![false; cells - 1];
    for (i, cell) in g.data.iter().enumerate() {
        match cell {
            None => {
                if i as i32 != g.empty_idx {
                    return false;
                }
            }
            Some(v) => {
                if *v < 0 || *v as usize >= cells - 1 || seen[*v as usize] {
                    return false;
                }
                seen[*v as usize] = true;
            }
        }
    }
    g.is_valid() && seen.iter().all(|&s| s)
}

#[test]
fn a_seeded_board_holds_each_tile_once() {
    for seed in 0..20u64 {
        let g = Grid::rand_with_seed(4, seed);
        assert_eq!(g.size, 4);
        assert!(is_shuffled(&g));
    }
    assert!(is_shuffled(&Grid::rand_with_seed(1, 3)));
    assert!(is_shuffled(&Grid::rand_with_seed(5, 69)));
}

#[test]
fn a_seeded_board_is_fixed_by_its_seed() {
    assert_eq!(Grid::rand_with_seed(4, 11), Grid::rand_with_seed(4, 11));
    let boards: Vec<Grid> = (0..8u64).map(|s| Grid::rand_with_seed(3, s)).collect();
    assert!(boards.iter().any(|b| *b != boards[0]));
}

#[test]
fn a_fresh_board_holds_each_tile_once() {
    for _ in 0..10 {
        assert!(is_shuffled(&Grid::rand(3)));
    }
}

#[test]
fn a_seeded_walk_stays_on_the_board() {
    let g = solved(3);
    for seed in 0..10u64 {
        let walked = g.rand_actions_with_seed(30, seed);
        assert!(is_shuffled(&walked));
        assert_eq!(walked, g.rand_actions_with_seed(30, seed));
    }
    assert_eq!(g.rand_actions_with_seed(0, 5), g);
    assert_eq!(g.rand_actions_with_seed(-3, 5), g);
    let one = g.rand_actions_with_seed(1, 5);
    assert!(one == g || g.expand().contains(&one));
}

#[test]
fn a_fresh_walk_stays_on_the_board() {
    let g = solved(4);
    let walked = g.rand_actions(50);
    assert!(is_shuffled(&walked));
    assert_eq!(g.rand_actions(0), g);
}

#[test]
fn the_next_walks_grow_or_shrink_by_ten() {
    assert_eq!(next_steps(50, 3, 1), 60);
    assert_eq!(next_steps(50, 1, 3), 40);
    assert_eq!(next_steps(50, 2, 2), 50);
    assert_eq!(next_steps(50, 0, 0), 50);
    assert_eq!(next_steps(-5, 0, 1), -15);
}

#[test]
fn a_round_keeps_the_boards_at_the_wanted_distance() {
    let end = solved(3);
    let mut starts: Vec<Grid> = Vec::new();
    let mut steps = 20;
    let mut rounds = 0;
    while starts.len() < 5 && rounds < 1000 {
        let before = starts.len();
        let next = gen_round(&end, &mut starts, 5, steps, 4, 12);
        assert!(starts.len() >= before && starts.len() <= before + 10);
        assert!(next == steps || next == steps + 10 || next == steps - 10);
        steps = next.clamp(0, 200);
        rounds += 1;
    }
    assert_eq!(starts.len(), 5);
    for s in &starts {
        assert!(is_shuffled(s));
        let d = man_dist(s, &end);
        assert!((4..=12).contains(&d));
    }
    let next = gen_round(&end, &mut starts, 5, steps, 4, 12);
    assert_eq!(starts.len(), 5);
    assert_eq!(next, steps);
}

#[test]
fn a_round_that_keeps_nothing_moves_the_walks() {
    let end = solved(3);
    let mut starts: Vec<Grid> = Vec::new();
    let next = gen_round(&end, &mut starts, 3, 0, 2, 100);
    assert_eq!(starts.len(), 0);
    assert_eq!(next, 10);
    let next = gen_round(&end, &mut starts, 3, 0, -5, -1);
    assert_eq!(starts.len(), 0);
    assert_eq!(next, -10);
    let next = gen_round(&end, &mut starts, 3, 0, 0, 0);
    assert_eq!(starts.len(), 3);
    assert_eq!(next, 0);
    assert!(starts.iter().all(|s| *s == end));
}

fn picks_of(g: &Grid) -> Vec<usize> {
    let cells = (g.size * g.size) as usize;
    let mut left: Vec<i32> = (0..cells as i32 - 1).collect();
    let mut picks = Vec::new();
    for cell in g.data.iter() {
        if let Some(v) = cell {
            let p = left.iter().position(|t| t == v).unwrap();
            left.remove(p);
            picks.push(p);
        }
    }
    picks
}

#[test]
fn draws_deal_the_tiles_that_they_point_at() {
    let g = Grid::from_draws(2, 1, &vec![2, 0, 0]);
    assert_eq!(g.data, vec![Some(2), None, Some(0), Some(1)]);
    assert_eq!(g.size, 2);
    assert_eq!(g.empty_idx, 1);

    let g = Grid::from_draws(3, 8, &vec![0; 8]);
    assert!(g.same_as(&solved(3)));

    let g = Grid::from_draws(3, 0, &vec![7, 0, 5, 1, 3, 0, 1, 0]);
    assert_eq!(
        g.data,
        vec![None, Some(7), Some(0), Some(6), Some(2), Some(5), Some(1), Some(4), Some(3)]
    );
    assert!(is_shuffled(&g));

    let g = Grid::from_draws(1, 0, &vec![]);
    assert_eq!(g.data, vec![None]);
}

#[test]
fn a_seeded_board_is_dealt_by_its_draws() {
    for seed in 0..10u64 {
        let g = Grid::rand_with_seed(4, seed);
        let picks = picks_of(&g);
        assert_eq!(picks.len(), 15);
        for (j, p) in picks.iter().enumerate() {
            assert!(*p < 15 - j);
        }
        assert!(Grid::from_draws(4, g.empty_idx, &picks).same_as(&g));
    }
}

#[test]
fn rounds_go_on_until_the_boards_are_there() {
    let end = solved(3);
    let starts = gen_starts(&end, 12, 20, 4, 12, 1000);
    assert_eq!(starts.len(), 12);
    for s in starts.iter() {
        assert!(s.is_valid());
        assert!(s.tiles_within(&end));
        let d = man_dist(s, &end);
        assert!(4 <= d && d <= 12);
    }
}

#[test]
fn rounds_end_when_they_are_used_up() {
    let end = solved(3);
    assert!(gen_starts(&end, 5, 20, 4, 12, 0).is_empty());
    assert!(gen_starts(&end, 0, 20, 4, 12, 10).is_empty());
    assert!(gen_starts(&end, 3, 0, -5, -1, 50).is_empty());
    assert!(gen_starts(&end, 3, i32::MAX - 5, 0, 100, 50).is_empty());
    assert!(gen_starts(&end, 3, i32::MIN + 5, 0, 100, 50).is_empty());
    assert!(gen_starts(&end, 40, 10, 2, 8, 1).len() <= 30);
}
